//! Character-level text operations with their specifications.
use vstd::prelude::*;
use vstd::string::StringExecFns;

verus! {

/// Appends one character to a string.
#[verifier::external_body]
pub(crate) fn push_char(s: &mut String, c: char)
    ensures
        final(s)@ == old(s)@.push(c),
{
    s.push(c);
}

/// Appends a string slice to a string.
pub(crate) fn push_str(s: &mut String, t: &str)
    ensures
        final(s)@ == old(s)@ + t@,
{
    s.append(t);
}

/// The characters of `s`, in order.
pub fn chars_of(s: &str) -> (res: Vec<char>)
    ensures
        res@ == s@,
{
    let mut res: Vec<char> = Vec::new();
    for c in it: s.chars()
        invariant
            res@ == it.seq().take(it.index() as int),
            it.seq() == s@,
    {
        res.push(c);
    }
    res
}

/// The string made of the characters of `v`.
pub fn string_of(v: &[char]) -> (res: String)
    ensures
        res@ == v@,
{
    let mut res = String::new();
    let mut i: usize = 0;
    while i < v.len()
        invariant
            i <= v@.len(),
            res@ == v@.take(i as int),
        decreases v@.len() - i,
    {
        push_char(&mut res, v[i]);
        assert(v@.take(i as int).push(v@[i as int]) =~= v@.take(i + 1));
        i = i + 1;
    }
    assert(v@.take(v@.len() as int) =~= v@);
    res
}

/// A copy of `s` as an owned string.
pub fn owned(s: &str) -> (res: String)
    ensures
        res@ == s@,
{
    let mut res = String::new();
    push_str(&mut res, s);
    assert(Seq::<char>::empty() + s@ =~= s@);
    res
}

/// Whether `sub` occurs in `s` starting at index `i`.
pub open spec fn occurs_at(s: Seq<char>, sub: Seq<char>, i: int) -> bool {
    0 <= i && i + sub.len() <= s.len() && s.subrange(i, i + sub.len()) == sub
}

/// Whether `sub` occurs anywhere in `s`.
pub open spec fn contains(s: Seq<char>, sub: Seq<char>) -> bool {
    exists|i: int| occurs_at(s, sub, i)
}

/// `s` with every occurrence of the non-empty `from` replaced by `to`, scanning
/// left to right and never overlapping: what `str::replace` computes.
pub open spec fn replaced(s: Seq<char>, from: Seq<char>, to: Seq<char>) -> Seq<char>
    decreases s.len(),
{
    if from.len() == 0 || s.len() < from.len() {
        s
    } else if s.take(from.len() as int) == from {
        to + replaced(s.skip(from.len() as int), from, to)
    } else {
        seq![s[0]] + replaced(s.skip(1), from, to)
    }
}

/// Whether `sub` occurs in `s` at index `i`.
fn occurs_at_exec(s: &Vec<char>, sub: &Vec<char>, i: usize) -> (res: bool)
    requires
        i <= s@.len(),
    ensures
        res == occurs_at(s@, sub@, i as int),
{
    if sub.len() > s.len() - i {
        return false;
    }
    let mut k: usize = 0;
    while k < sub.len()
        invariant
            i + sub@.len() <= s@.len(),
            k <= sub@.len(),
            forall|j: int| 0 <= j < k ==> s@[i + j] == sub@[j],
        decreases sub@.len() - k,
    {
        assert(i + k < s.len());
        if s[i + k] != sub[k] {
            assert(s@.subrange(i as int, i + sub@.len())[k as int] != sub@[k as int]);
            return false;
        }
        k = k + 1;
    }
    assert(s@.subrange(i as int, i + sub@.len()) =~= sub@);
    true
}

/// Replaces every occurrence of `from` in `s` with `to`, left to right.
pub fn replace_all(s: &str, from: &str, to: &str) -> (res: String)
    requires
        from@.len() > 0,
    ensures
        res@ == replaced(s@, from@, to@),
{
    let sv = chars_of(s);
    let fv = chars_of(from);
    let tv = chars_of(to);
    let mut out: Vec<char> = Vec::new();
    let mut i: usize = 0;
    assert(sv@.skip(0) =~= sv@);
    assert(out@ + replaced(sv@, fv@, tv@) =~= replaced(sv@, fv@, tv@));
    while i < sv.len()
        invariant
            sv@ == s@,
            fv@ == from@,
            tv@ == to@,
            fv@.len() > 0,
            i <= sv@.len(),
            replaced(sv@, fv@, tv@) == out@ + replaced(sv@.skip(i as int), fv@, tv@),
        decreases sv@.len() - i,
    {
        let ghost rest = sv@.skip(i as int);
        if occurs_at_exec(&sv, &fv, i) {
            assert(rest.take(fv@.len() as int) =~= sv@.subrange(i as int, i + fv@.len()));
            assert(rest.skip(fv@.len() as int) =~= sv@.skip(i + fv@.len()));
            let mut k: usize = 0;
            let ghost out0 = out@;
            while k < tv.len()
                invariant
                    k <= tv@.len(),
                    out@ == out0 + tv@.take(k as int),
                decreases tv@.len() - k,
            {
                out.push(tv[k]);
                assert(out0 + tv@.take(k + 1) =~= (out0 + tv@.take(k as int)).push(tv@[k as int]));
                k = k + 1;
            }
            assert(tv@.take(tv@.len() as int) =~= tv@);
            assert(out0 + (tv@ + replaced(rest.skip(fv@.len() as int), fv@, tv@)) =~= out@
                + replaced(rest.skip(fv@.len() as int), fv@, tv@));
            i = i + fv.len();
        } else {
            if sv.len() - i >= fv.len() {
                assert(rest.take(fv@.len() as int) =~= sv@.subrange(i as int, i + fv@.len()));
            }
            if sv.len() - i < fv.len() {
                // Too short to hold another occurrence: the rest is copied as it is.
                let ghost out0 = out@;
                let mut k: usize = i;
                while k < sv.len()
                    invariant
                        i <= k <= sv@.len(),
                        out@ == out0 + sv@.subrange(i as int, k as int),
                    decreases sv@.len() - k,
                {
                    out.push(sv[k]);
                    assert(out0 + sv@.subrange(i as int, k + 1) =~= (out0 + sv@.subrange(
                        i as int,
                        k as int,
                    )).push(sv@[k as int]));
                    k = k + 1;
                }
                assert(sv@.subrange(i as int, sv@.len() as int) =~= rest);
                assert(sv@.skip(sv@.len() as int) =~= Seq::<char>::empty());
                assert(replaced(Seq::<char>::empty(), fv@, tv@) =~= Seq::<char>::empty());
                assert(out@ + Seq::<char>::empty() =~= out@);
                i = sv.len();
            } else {
                let ghost out0 = out@;
                out.push(sv[i]);
                assert(rest.skip(1) =~= sv@.skip(i + 1));
                assert(out0 + (seq![sv@[i as int]] + replaced(rest.skip(1), fv@, tv@)) =~= out@
                    + replaced(sv@.skip(i + 1), fv@, tv@));
                i = i + 1;
            }
        }
    }
    assert(sv@.skip(sv@.len() as int) =~= Seq::<char>::empty());
    assert(out@ + Seq::<char>::empty() =~= out@);
    string_of(&out)
}

/// Whether `c` has the Unicode `White_Space` property: what `char::is_whitespace` tests.
pub open spec fn is_whitespace(c: char) -> bool {
    ('\u{9}' <= c && c <= '\u{d}') || c == ' ' || c == '\u{85}' || c == '\u{a0}' || c == '\u{1680}'
        || ('\u{2000}' <= c && c <= '\u{200a}') || c == '\u{2028}' || c == '\u{2029}' || c
        == '\u{202f}' || c == '\u{205f}' || c == '\u{3000}'
}

/// Whether `c` is white space.
pub fn is_whitespace_exec(c: char) -> (res: bool)
    ensures
        res == is_whitespace(c),
{
    ('\u{9}' <= c && c <= '\u{d}') || c == ' ' || c == '\u{85}' || c == '\u{a0}' || c == '\u{1680}'
        || ('\u{2000}' <= c && c <= '\u{200a}') || c == '\u{2028}' || c == '\u{2029}' || c
        == '\u{202f}' || c == '\u{205f}' || c == '\u{3000}'
}

/// `s` without its leading white space.
pub open spec fn trim_start(s: Seq<char>) -> Seq<char>
    decreases s.len(),
{
    if s.len() > 0 && is_whitespace(s[0]) {
        trim_start(s.drop_first())
    } else {
        s
    }
}

/// `s` without its trailing white space.
pub open spec fn trim_end(s: Seq<char>) -> Seq<char>
    decreases s.len(),
{
    if s.len() > 0 && is_whitespace(s.last()) {
        trim_end(s.drop_last())
    } else {
        s
    }
}

/// `s` without leading and trailing white space: what `str::trim` returns.
pub open spec fn trim(s: Seq<char>) -> Seq<char> {
    trim_end(trim_start(s))
}

/// The bounds of `v[from..to]` with leading and trailing white space left out.
pub fn trim_bounds(v: &Vec<char>, from: usize, to: usize) -> (res: (usize, usize))
    requires
        from <= to <= v@.len(),
    ensures
        from <= res.0 <= res.1 <= to,
        v@.subrange(res.0 as int, res.1 as int) == trim(v@.subrange(from as int, to as int)),
{
    let mut a = from;
    while a < to && is_whitespace_exec(v[a])
        invariant
            from <= a <= to <= v@.len(),
            trim_start(v@.subrange(from as int, to as int)) == trim_start(v@.subrange(a as int, to as int)),
        decreases to - a,
    {
        assert(v@.subrange(a as int, to as int).drop_first() =~= v@.subrange(a + 1, to as int));
        a = a + 1;
    }
    if a < to {
        assert(v@.subrange(a as int, to as int)[0] == v@[a as int]);
    }
    let mut b = to;
    while b > a && is_whitespace_exec(v[b - 1])
        invariant
            from <= a <= b <= to <= v@.len(),
            trim_start(v@.subrange(from as int, to as int)) == trim_start(v@.subrange(a as int, to as int)),
            trim_start(v@.subrange(a as int, to as int)) == v@.subrange(a as int, to as int),
            trim_end(v@.subrange(a as int, to as int)) == trim_end(v@.subrange(a as int, b as int)),
        decreases b - a,
    {
        assert(v@.subrange(a as int, b as int).drop_last() =~= v@.subrange(a as int, b - 1));
        assert(v@.subrange(a as int, b as int).last() == v@[b - 1]);
        b = b - 1;
    }
    if b > a {
        assert(v@.subrange(a as int, b as int).last() == v@[b - 1]);
    }
    (a, b)
}

/// The string made of `v[from..to]`.
pub fn string_of_range(v: &Vec<char>, from: usize, to: usize) -> (res: String)
    requires
        from <= to <= v@.len(),
    ensures
        res@ == v@.subrange(from as int, to as int),
{
    let mut res = String::new();
    let mut i: usize = from;
    while i < to
        invariant
            from <= i <= to <= v@.len(),
            res@ == v@.subrange(from as int, i as int),
        decreases to - i,
    {
        push_char(&mut res, v[i]);
        assert(v@.subrange(from as int, i + 1) =~= v@.subrange(from as int, i as int).push(v@[i as int]));
        i = i + 1;
    }
    res
}

/// Whether `v[from..to]` equals `t`.
pub fn range_eq(v: &Vec<char>, from: usize, to: usize, t: &Vec<char>) -> (res: bool)
    requires
        from <= to <= v@.len(),
    ensures
        res == (v@.subrange(from as int, to as int) == t@),
{
    if to - from != t.len() {
        return false;
    }
    let mut i: usize = 0;
    while i < t.len()
        invariant
            from + t@.len() == to <= v@.len(),
            i <= t@.len(),
            forall|k: int| 0 <= k < i ==> v@[from + k] == t@[k],
        decreases t@.len() - i,
    {
        if v[from + i] != t[i] {
            assert(v@.subrange(from as int, to as int)[i as int] != t@[i as int]);
            return false;
        }
        i = i + 1;
    }
    assert(v@.subrange(from as int, to as int) =~= t@);
    true
}

} // verus!
