//! Turning user queries into full-text match expressions and LIKE patterns.
use vstd::prelude::*;
use crate::text::{chars_of, string_of, extend_chars, trim, trim_chars, is_ws, is_whitespace_char};

verus! {

/// A character as SQLite's LIKE compares it: ASCII letters without case.
pub open spec fn fold(c: char) -> u32 {
    if 'A' <= c <= 'Z' {
        (c as u32 + 32) as u32
    } else {
        c as u32
    }
}

/// SQLite's `text LIKE pat ESCAPE '\'`: `%` stands for any run of characters, `_`
/// for one character, `\` makes the next character literal, and ASCII letters
/// match without case.
pub open spec fn like_matches(pat: Seq<char>, text: Seq<char>) -> bool
    decreases pat.len() + text.len(),
{
    if pat.len() == 0 {
        text.len() == 0
    } else if pat[0] == '\\' && pat.len() >= 2 {
        text.len() > 0 && fold(text[0]) == fold(pat[1]) && like_matches(pat.skip(2), text.skip(1))
    } else if pat[0] == '%' {
        like_matches(pat.skip(1), text) || (text.len() > 0 && like_matches(pat, text.skip(1)))
    } else if pat[0] == '_' {
        text.len() > 0 && like_matches(pat.skip(1), text.skip(1))
    } else {
        text.len() > 0 && fold(text[0]) == fold(pat[0]) && like_matches(pat.skip(1), text.skip(1))
    }
}

pub open spec fn is_like_special(c: char) -> bool {
    c == '\\' || c == '%' || c == '_'
}

/// One character written literally in a LIKE pattern.
pub open spec fn escape_one(c: char) -> Seq<char> {
    if is_like_special(c) {
        seq!['\\', c]
    } else {
        seq![c]
    }
}

/// `s` written literally in a LIKE pattern.
pub open spec fn like_escape(s: Seq<char>) -> Seq<char>
    decreases s.len(),
{
    if s.len() == 0 {
        Seq::empty()
    } else {
        escape_one(s[0]) + like_escape(s.skip(1))
    }
}

/// `text` starts with `prefix`, ASCII letters compared without case.
pub open spec fn starts_with_folded(text: Seq<char>, prefix: Seq<char>) -> bool {
    prefix.len() <= text.len() && forall|i: int| 0 <= i < prefix.len() ==> fold(#[trigger] text[i]) == fold(prefix[i])
}

proof fn lemma_like_escape_push(s: Seq<char>, c: char)
    ensures
        like_escape(s.push(c)) == like_escape(s) + escape_one(c),
    decreases s.len(),
{
    if s.len() == 0 {
        assert(s.push(c).skip(1) =~= Seq::<char>::empty());
        assert(s.push(c)[0] == c);
        assert(like_escape(s.push(c)) == escape_one(c) + like_escape(Seq::<char>::empty()));
        assert(like_escape(s.push(c)) =~= escape_one(c) + Seq::<char>::empty());
        assert(like_escape(s) + escape_one(c) =~= escape_one(c));
    } else {
        assert(s.push(c).skip(1) =~= s.skip(1).push(c));
        lemma_like_escape_push(s.skip(1), c);
        assert(s.push(c)[0] == s[0]);
        assert(like_escape(s.push(c)) == escape_one(s[0]) + like_escape(s.push(c).skip(1)));
        assert(like_escape(s) == escape_one(s[0]) + like_escape(s.skip(1)));
        assert(like_escape(s.push(c)) =~= like_escape(s) + escape_one(c));
    }
}

proof fn lemma_percent_matches_all(text: Seq<char>)
    ensures
        like_matches(seq!['%'], text),
    decreases text.len(),
{
    let p = seq!['%'];
    assert(p.skip(1) =~= Seq::<char>::empty());
    assert(p[0] == '%' && p.len() == 1);
    if text.len() > 0 {
        lemma_percent_matches_all(text.skip(1));
    } else {
        assert(like_matches(p.skip(1), text));
    }
}

/// The escaped prefix followed by `%` matches exactly the texts that start with
/// the prefix.
proof fn lemma_prefix_pattern(prefix: Seq<char>, text: Seq<char>)
    ensures
        like_matches(like_escape(prefix) + seq!['%'], text) <==> starts_with_folded(text, prefix),
    decreases prefix.len(),
{
    if prefix.len() == 0 {
        assert(like_escape(prefix) + seq!['%'] =~= seq!['%']);
        lemma_percent_matches_all(text);
    } else {
        let c = prefix[0];
        let rest = prefix.skip(1);
        let pat = like_escape(prefix) + seq!['%'];
        let tail = like_escape(rest) + seq!['%'];
        if text.len() > 0 {
            lemma_prefix_pattern(rest, text.skip(1));
        }
        if is_like_special(c) {
            assert(pat =~= seq!['\\', c] + tail);
            assert(pat.skip(2) =~= tail);
        } else {
            assert(pat =~= seq![c] + tail);
            assert(pat.skip(1) =~= tail);
        }
        if starts_with_folded(text, prefix) {
            assert(fold(text[0]) == fold(prefix[0]));
            assert forall|i: int| 0 <= i < rest.len() implies fold(#[trigger] text.skip(1)[i]) == fold(rest[i]) by {
                assert(text.skip(1)[i] == text[i + 1]);
                assert(fold(text[i + 1]) == fold(prefix[i + 1]));
            }
        }
        if text.len() > 0 && fold(text[0]) == fold(c) && starts_with_folded(text.skip(1), rest) {
            assert forall|i: int| 0 <= i < prefix.len() implies fold(#[trigger] text[i]) == fold(prefix[i]) by {
                if i > 0 {
                    assert(text.skip(1)[i - 1] == text[i]);
                    assert(fold(text.skip(1)[i - 1]) == fold(rest[i - 1]));
                }
            }
        }
    }
}

/// The LIKE pattern that matches every path starting with `prefix`.
pub open spec fn prefix_pattern(prefix: Seq<char>) -> Seq<char> {
    like_escape(prefix) + seq!['%']
}

/// A prefix removal or rename matches a path exactly when the path starts with the
/// prefix as written (ASCII letters without case): `%`, `_` and `\` in the prefix
/// stand for themselves, so `p50%/` does not reach `p500/a.md`.
pub proof fn lemma_prefix_pattern_is_literal(prefix: Seq<char>, path: Seq<char>)
    ensures
        like_matches(prefix_pattern(prefix), path) <==> starts_with_folded(path, prefix),
{
    lemma_prefix_pattern(prefix, path);
}

fn escape_like_chars(v: &Vec<char>) -> (r: Vec<char>)
    ensures
        r@ == like_escape(v@),
{
    let mut out: Vec<char> = Vec::new();
    let mut i: usize = 0;
    assert(v@.take(0) =~= Seq::<char>::empty());
    while i < v.len()
        invariant
            i <= v.len(),
            out@ == like_escape(v@.take(i as int)),
        decreases v.len() - i,
    {
        let c = v[i];
        proof {
            lemma_like_escape_push(v@.take(i as int), c);
            assert(v@.take(i + 1) =~= v@.take(i as int).push(c));
        }
        if c == '\\' || c == '%' || c == '_' {
            out.push('\\');
        }
        out.push(c);
        assert(out@ =~= like_escape(v@.take(i + 1)));
        i += 1;
    }
    assert(v@.take(i as int) =~= v@);
    out
}

/// The LIKE pattern (escape `\`) for paths that start with `prefix`: `\`, `%` and
/// `_` are escaped, then `%` is appended.
pub fn like_prefix_pattern(prefix: &str) -> (r: String)
    ensures
        r@ == prefix_pattern(prefix@),
{
    let mut out = escape_like_chars(&chars_of(prefix));
    out.push('%');
    string_of(&out)
}

/// What `str::to_lowercase` makes of a text.
pub uninterp spec fn lower_of(s: Seq<char>) -> Seq<char>;

/// Relies on `str::to_lowercase`: the lower-case form by Unicode's rules, a
/// function of the characters alone; the empty text stays empty.
#[verifier::external_body]
fn lowercase(s: &str) -> (r: String)
    ensures
        r@ == lower_of(s@),
        s@.len() == 0 ==> r@.len() == 0,
{
    s.to_lowercase()
}

/// The LIKE pattern (escape `\`) for texts that contain `query`, trimmed and in
/// lower case.
pub fn like_contains_pattern(query: &str) -> (r: String)
    ensures
        r@ == seq!['%'] + like_escape(lower_of(trim(query@))) + seq!['%'],
{
    let t = string_of(&trim_chars(&chars_of(query)));
    let lower = lowercase(t.as_str());
    let mut out: Vec<char> = vec!['%'];
    extend_chars(&mut out, &escape_like_chars(&chars_of(lower.as_str())));
    out.push('%');
    string_of(&out)
}

/// The words of `s` as `str::split_whitespace` yields them: the runs between white
/// space, the last one still open.
pub open spec fn words_acc(s: Seq<char>) -> (Seq<Seq<char>>, Seq<char>)
    decreases s.len(),
{
    if s.len() == 0 {
        (Seq::empty(), Seq::empty())
    } else {
        let (w, cur) = words_acc(s.drop_last());
        if is_ws(s.last()) {
            if cur.len() > 0 {
                (w.push(cur), Seq::empty())
            } else {
                (w, Seq::empty())
            }
        } else {
            (w, cur.push(s.last()))
        }
    }
}

/// The words of `s`, as `str::split_whitespace` yields them.
pub open spec fn words(s: Seq<char>) -> Seq<Seq<char>> {
    let (w, cur) = words_acc(s);
    if cur.len() > 0 {
        w.push(cur)
    } else {
        w
    }
}

fn words_chars(v: &Vec<char>) -> (r: Vec<Vec<char>>)
    ensures
        crate::paths::views(r@) == words(v@),
{
    let mut w: Vec<Vec<char>> = Vec::new();
    let mut cur: Vec<char> = Vec::new();
    let mut i: usize = 0;
    assert(v@.take(0) =~= Seq::<char>::empty());
    assert(crate::paths::views(w@) =~= Seq::<Seq<char>>::empty());
    while i < v.len()
        invariant
            i <= v.len(),
            words_acc(v@.take(i as int)) == (crate::paths::views(w@), cur@),
        decreases v.len() - i,
    {
        let c = v[i];
        assert(v@.take(i + 1).drop_last() =~= v@.take(i as int));
        assert(v@.take(i + 1).last() == c);
        if is_whitespace_char(c) {
            if cur.len() > 0 {
                let ghost before = w@;
                let ghost cv = cur@;
                w.push(cur);
                assert(crate::paths::views(w@) =~= crate::paths::views(before).push(cv));
                cur = Vec::new();
                assert(cur@ =~= Seq::<char>::empty());
            } else {
                cur = Vec::new();
                assert(cur@ =~= Seq::<char>::empty());
            }
        } else {
            cur.push(c);
        }
        i += 1;
    }
    assert(v@.take(i as int) =~= v@);
    if cur.len() > 0 {
        let ghost before = w@;
        let ghost cv = cur@;
        w.push(cur);
        assert(crate::paths::views(w@) =~= crate::paths::views(before).push(cv));
    }
    w
}

/// `s` without double quotes.
pub open spec fn drop_quotes(s: Seq<char>) -> Seq<char>
    decreases s.len(),
{
    if s.len() == 0 {
        s
    } else if s.last() == '"' {
        drop_quotes(s.drop_last())
    } else {
        drop_quotes(s.drop_last()).push(s.last())
    }
}

/// The words of `ws`, each made a quoted phrase, joined by spaces.
pub open spec fn quoted_phrases(ws: Seq<Seq<char>>) -> Seq<char>
    decreases ws.len(),
{
    if ws.len() == 0 {
        Seq::empty()
    } else if ws.len() == 1 {
        seq!['"'] + drop_quotes(ws[0]) + seq!['"']
    } else {
        quoted_phrases(ws.drop_last()) + seq![' ', '"'] + drop_quotes(ws.last()) + seq!['"']
    }
}

fn drop_quotes_chars(v: &Vec<char>) -> (r: Vec<char>)
    ensures
        r@ == drop_quotes(v@),
{
    let mut out: Vec<char> = Vec::new();
    let mut i: usize = 0;
    assert(v@.take(0) =~= Seq::<char>::empty());
    while i < v.len()
        invariant
            i <= v.len(),
            out@ == drop_quotes(v@.take(i as int)),
        decreases v.len() - i,
    {
        assert(v@.take(i + 1).drop_last() =~= v@.take(i as int));
        assert(v@.take(i + 1).last() == v@[i as int]);
        if v[i] != '"' {
            out.push(v[i]);
        }
        i += 1;
    }
    assert(v@.take(i as int) =~= v@);
    out
}

/// The full-text match expression for `query`: each word as a quoted phrase, with
/// the double quotes inside it removed, separated by spaces.
pub fn escape_fts_query(query: &str) -> (r: String)
    ensures
        r@ == quoted_phrases(words(query@)),
{
    let ws = words_chars(&chars_of(query));
    let mut out: Vec<char> = Vec::new();
    let mut i: usize = 0;
    assert(crate::paths::views(ws@).take(0) =~= Seq::<Seq<char>>::empty());
    while i < ws.len()
        invariant
            i <= ws.len(),
            out@ == quoted_phrases(crate::paths::views(ws@).take(i as int)),
        decreases ws.len() - i,
    {
        let ghost t = crate::paths::views(ws@).take(i + 1);
        assert(t.drop_last() =~= crate::paths::views(ws@).take(i as int));
        assert(t.last() == ws@[i as int]@);
        let ghost before = out@;
        if i > 0 {
            out.push(' ');
        }
        out.push('"');
        extend_chars(&mut out, &drop_quotes_chars(&ws[i]));
        out.push('"');
        assert(out@ =~= quoted_phrases(t));
        i += 1;
    }
    assert(crate::paths::views(ws@).take(i as int) =~= words(query@));
    string_of(&out)
}

/// Whether `char::is_alphanumeric` holds of a character.
pub uninterp spec fn is_alnum(c: char) -> bool;

/// Relies on `char::is_alphanumeric`: Unicode's Alphabetic or Numeric property,
/// which among ASCII characters holds of the letters and digits alone.
#[verifier::external_body]
fn alphanumeric(c: char) -> (r: bool)
    ensures
        r == is_alnum(c),
        (c as u32) < 128 ==> (r <==> ('a' <= c <= 'z' || 'A' <= c <= 'Z' || '0' <= c <= '9')),
{
    c.is_alphanumeric()
}

/// A character kept in a prefix-search term.
pub open spec fn term_char(c: char) -> bool {
    is_alnum(c) || c == '_' || c == '-'
}

/// `s` keeping only the characters of a prefix-search term.
pub open spec fn term_chars(s: Seq<char>) -> Seq<char>
    decreases s.len(),
{
    if s.len() == 0 {
        s
    } else if term_char(s.last()) {
        term_chars(s.drop_last()).push(s.last())
    } else {
        term_chars(s.drop_last())
    }
}

/// The prefix phrases `"term"*` of the words of `ws` that keep some character,
/// joined by spaces.
pub open spec fn prefix_phrases(ws: Seq<Seq<char>>) -> Seq<char>
    decreases ws.len(),
{
    if ws.len() == 0 {
        Seq::empty()
    } else {
        let prev = prefix_phrases(ws.drop_last());
        let t = term_chars(ws.last());
        if t.len() == 0 {
            prev
        } else if prev.len() == 0 {
            seq!['"'] + t + seq!['"', '*']
        } else {
            prev + seq![' ', '"'] + t + seq!['"', '*']
        }
    }
}

fn term_chars_exec(v: &Vec<char>) -> (r: Vec<char>)
    ensures
        r@ == term_chars(v@),
{
    let mut out: Vec<char> = Vec::new();
    let mut i: usize = 0;
    assert(v@.take(0) =~= Seq::<char>::empty());
    while i < v.len()
        invariant
            i <= v.len(),
            out@ == term_chars(v@.take(i as int)),
        decreases v.len() - i,
    {
        assert(v@.take(i + 1).drop_last() =~= v@.take(i as int));
        assert(v@.take(i + 1).last() == v@[i as int]);
        let c = v[i];
        if alphanumeric(c) || c == '_' || c == '-' {
            out.push(c);
        }
        i += 1;
    }
    assert(v@.take(i as int) =~= v@);
    out
}

/// The prefix-match expression for `query`: each word cut down to its letters,
/// digits, `_` and `-`, written `"term"*`; words left empty are dropped.
pub fn escape_fts_prefix_query(query: &str) -> (r: String)
    ensures
        r@ == prefix_phrases(words(query@)),
{
    let ws = words_chars(&chars_of(query));
    let mut out: Vec<char> = Vec::new();
    let mut i: usize = 0;
    assert(crate::paths::views(ws@).take(0) =~= Seq::<Seq<char>>::empty());
    while i < ws.len()
        invariant
            i <= ws.len(),
            out@ == prefix_phrases(crate::paths::views(ws@).take(i as int)),
        decreases ws.len() - i,
    {
        let ghost t = crate::paths::views(ws@).take(i + 1);
        assert(t.drop_last() =~= crate::paths::views(ws@).take(i as int));
        assert(t.last() == ws@[i as int]@);
        let term = term_chars_exec(&ws[i]);
        if term.len() > 0 {
            if out.len() > 0 {
                out.push(' ');
            }
            out.push('"');
            extend_chars(&mut out, &term);
            out.push('"');
            out.push('*');
            assert(out@ =~= prefix_phrases(t));
        }
        i += 1;
    }
    assert(crate::paths::views(ws@).take(i as int) =~= words(query@));
    string_of(&out)
}

} // verus!
