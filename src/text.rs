use vstd::prelude::*;
use vstd::std_specs::iter::IteratorSpec;

verus! {

broadcast use vstd::string::axiom_spec_iter, vstd::string::next_postcondition;

/// Relies on `String::push`: appends one character at the end.
#[verifier::external_body]
pub(crate) fn push_char(s: &mut String, c: char)
    ensures
        final(s)@ == old(s)@.push(c),
{
    s.push(c);
}

/// The characters of `s`, in order.
pub fn chars_of(s: &str) -> (r: Vec<char>)
    ensures
        r@ == s@,
{
    let mut out: Vec<char> = Vec::new();
    let mut it = s.chars();
    loop
        invariant
            it.obeys_prophetic_iter_laws(),
            it.decrease() is Some,
            out@ + it.remaining() == s@,
        ensures
            out@ == s@,
        decreases it.decrease()->0,
    {
        match it.next() {
            Some(c) => {
                assert(out@.push(c) + it.remaining() =~= s@);
                out.push(c);
            },
            None => {
                assert(out@ =~= s@);
                break;
            },
        }
    }
    out
}

/// A `String` holding exactly the characters of `v`.
pub fn string_of(v: &Vec<char>) -> (r: String)
    ensures
        r@ == v@,
{
    let mut out = String::new();
    let mut i: usize = 0;
    while i < v.len()
        invariant
            i <= v@.len(),
            out@ == v@.take(i as int),
        decreases v@.len() - i,
    {
        push_char(&mut out, v[i]);
        i += 1;
        assert(out@ =~= v@.take(i as int));
    }
    assert(v@.take(i as int) =~= v@);
    out
}

/// Appends all of `src` to `dst`.
pub fn extend_chars(dst: &mut Vec<char>, src: &Vec<char>)
    ensures
        final(dst)@ == old(dst)@ + src@,
{
    let mut i: usize = 0;
    while i < src.len()
        invariant
            i <= src@.len(),
            dst@ == old(dst)@ + src@.take(i as int),
        decreases src@.len() - i,
    {
        dst.push(src[i]);
        i += 1;
        assert(dst@ =~= old(dst)@ + src@.take(i as int));
    }
    assert(src@.take(i as int) =~= src@);
}

/// A fresh vector holding `v[from..to]`.
pub fn slice_chars(v: &Vec<char>, from: usize, to: usize) -> (r: Vec<char>)
    requires
        from <= to <= v@.len(),
    ensures
        r@ == v@.subrange(from as int, to as int),
{
    let mut out: Vec<char> = Vec::new();
    let mut i: usize = from;
    while i < to
        invariant
            from <= i <= to <= v@.len(),
            out@ == v@.subrange(from as int, i as int),
        decreases to - i,
    {
        out.push(v[i]);
        i += 1;
        assert(out@ =~= v@.subrange(from as int, i as int));
    }
    out
}

/// Whether two character vectors are equal.
pub fn chars_eq(a: &Vec<char>, b: &Vec<char>) -> (r: bool)
    ensures
        r == (a@ == b@),
{
    if a.len() != b.len() {
        return false;
    }
    let mut i: usize = 0;
    while i < a.len()
        invariant
            a@.len() == b@.len(),
            i <= a@.len(),
            forall|j: int| 0 <= j < i ==> a@[j] == b@[j],
        decreases a@.len() - i,
    {
        if a[i] != b[i] {
            return false;
        }
        i += 1;
    }
    assert(a@ =~= b@);
    true
}

/// Unicode's White_Space property, the set that `char::is_whitespace` tests.
pub open spec fn is_ws(c: char) -> bool {
    ('\u{9}' <= c <= '\u{d}') || c == ' ' || c == '\u{85}' || c == '\u{a0}' || c == '\u{1680}'
        || ('\u{2000}' <= c <= '\u{200a}') || c == '\u{2028}' || c == '\u{2029}'
        || c == '\u{202f}' || c == '\u{205f}' || c == '\u{3000}'
}

/// Whether `c` is white space in Unicode's sense.
pub fn is_whitespace_char(c: char) -> (r: bool)
    ensures
        r == is_ws(c),
{
    ('\u{9}' <= c && c <= '\u{d}') || c == ' ' || c == '\u{85}' || c == '\u{a0}' || c
        == '\u{1680}' || ('\u{2000}' <= c && c <= '\u{200a}') || c == '\u{2028}' || c
        == '\u{2029}' || c == '\u{202f}' || c == '\u{205f}' || c == '\u{3000}'
}

/// Index of the first character of `s` that is not white space (or its length).
pub open spec fn trim_start_index(s: Seq<char>) -> nat
    decreases s.len(),
{
    if s.len() > 0 && is_ws(s[0]) {
        1 + trim_start_index(s.drop_first())
    } else {
        0
    }
}

/// `s` without leading and trailing white space.
pub open spec fn trim(s: Seq<char>) -> Seq<char>
    decreases s.len(),
{
    if s.len() == 0 {
        s
    } else if is_ws(s[0]) {
        trim(s.drop_first())
    } else if is_ws(s.last()) {
        trim(s.drop_last())
    } else {
        s
    }
}

/// Removes leading and trailing white space.
pub fn trim_chars(v: &Vec<char>) -> (r: Vec<char>)
    ensures
        r@ == trim(v@),
{
    let mut lo: usize = 0;
    let mut hi: usize = v.len();
    assert(v@.subrange(0, v@.len() as int) =~= v@);
    while lo < hi && (is_whitespace_char(v[lo]) || is_whitespace_char(v[hi - 1]))
        invariant
            lo <= hi <= v@.len(),
            trim(v@.subrange(lo as int, hi as int)) == trim(v@),
        decreases hi - lo,
    {
        let ghost sub = v@.subrange(lo as int, hi as int);
        if is_whitespace_char(v[lo]) {
            assert(sub.drop_first() =~= v@.subrange(lo + 1, hi as int));
            lo += 1;
        } else {
            assert(sub.drop_last() =~= v@.subrange(lo as int, hi - 1));
            hi -= 1;
        }
    }
    assert(trim(v@.subrange(lo as int, hi as int)) == v@.subrange(lo as int, hi as int));
    slice_chars(v, lo, hi)
}

/// `a` is `b` compared without ASCII case, where `b` holds no upper-case ASCII letter.
pub open spec fn same_ci(a: char, lower: char) -> bool {
    a == lower || ('a' <= lower <= 'z' && a as u32 == lower as u32 - 32)
}

/// `s` starts with `p` at position `at`, ignoring ASCII case.
pub open spec fn has_ci_at(s: Seq<char>, at: int, p: Seq<char>) -> bool {
    0 <= at && at + p.len() <= s.len() && forall|j: int|
        0 <= j < p.len() ==> same_ci(#[trigger] s[at + j], p[j])
}

/// `s` holds `p` at position `at`.
pub open spec fn has_at(s: Seq<char>, at: int, p: Seq<char>) -> bool {
    0 <= at && at + p.len() <= s.len() && s.subrange(at, at + p.len()) == p
}

/// Whether `v` holds `p` at `at`, ignoring ASCII case (`p` being lower case).
pub fn matches_ci_at(v: &Vec<char>, at: usize, p: &Vec<char>) -> (r: bool)
    ensures
        r == has_ci_at(v@, at as int, p@),
{
    if at > v.len() || p.len() > v.len() - at {
        return false;
    }
    let mut j: usize = 0;
    while j < p.len()
        invariant
            at <= v@.len(),
            at + p.len() <= v.len(),
            j <= p@.len(),
            forall|k: int| 0 <= k < j ==> same_ci(#[trigger] v@[at + k], p@[k]),
        decreases p@.len() - j,
    {
        let a = v[at + j];
        let l = p[j];
        let same = a == l || ('a' <= l && l <= 'z' && a as u32 == (l as u32) - 32);
        if !same {
            return false;
        }
        j += 1;
    }
    true
}

/// Whether `v` holds `p` at `at`.
pub fn matches_at(v: &Vec<char>, at: usize, p: &Vec<char>) -> (r: bool)
    ensures
        r == has_at(v@, at as int, p@),
{
    if at > v.len() || p.len() > v.len() - at {
        return false;
    }
    let mut j: usize = 0;
    while j < p.len()
        invariant
            at <= v@.len(),
            at + p.len() <= v.len(),
            j <= p@.len(),
            forall|k: int| 0 <= k < j ==> v@[at + k] == p@[k],
        decreases p@.len() - j,
    {
        if v[at + j] != p[j] {
            return false;
        }
        j += 1;
    }
    assert(v@.subrange(at as int, at + p@.len()) =~= p@);
    true
}

} // verus!
