//! Rewriting the links of a note body when notes or the note itself move.
use vstd::prelude::*;
use crate::text::{chars_of, string_of, slice_chars, extend_chars, chars_eq, has_at, matches_at, trim, trim_chars};
use crate::paths::{
    split_slash, join_slash, dir_segments, resolve_parts, is_dot, is_dotdot, is_plain_segment, last_slash, md_suffix, ends_with_md, resolve_relative, resolve_relative_chars, parent_of,
    parent_chars, with_md, with_md_chars, without_md, without_md_chars, is_external,
    is_external_chars, split_slash_chars, join_slash_chars, views,
};
use crate::decode::{utf8_lossy, pct_decode, decode_percent_chars};
use crate::links::{
    strip_slashes, strip_slashes_chars, before_char, before_char_chars, span_text, md_target_text,
    md_target_chars,
};
use crate::scan::{LinkSpan, find_off};
use crate::markdown::{LinkRecord, LinkView, links_of, link_records, record_views};

verus! {

pub open spec fn dot_slash() -> Seq<char> {
    seq!['.', '/']
}

pub open spec fn dot_dot_slash() -> Seq<char> {
    seq!['.', '.', '/']
}

/// A link written from the note's own folder: it starts with `./` or `../`.
pub open spec fn is_note_relative(t: Seq<char>) -> bool {
    has_at(t, 0, dot_slash()) || has_at(t, 0, dot_dot_slash())
}

fn is_note_relative_chars(t: &Vec<char>) -> (r: bool)
    ensures
        r == is_note_relative(t@),
{
    let a: Vec<char> = vec!['.', '/'];
    let b: Vec<char> = vec!['.', '.', '/'];
    matches_at(t, 0, &a) || matches_at(t, 0, &b)
}

/// Where a link target leads from the note `source`: after `/` from the vault root,
/// after `./` or `../` from the note's folder, otherwise from the vault root; `.md`
/// is added when missing.
pub open spec fn resolve_link_target(source: Seq<char>, raw: Seq<char>) -> Option<Seq<char>> {
    if raw.len() == 0 {
        None
    } else if raw[0] == '/' {
        if strip_slashes(raw).len() == 0 {
            None
        } else {
            resolve_relative(Seq::empty(), with_md(strip_slashes(raw)))
        }
    } else if is_note_relative(raw) {
        resolve_relative(parent_of(source), with_md(raw))
    } else {
        resolve_relative(Seq::empty(), with_md(raw))
    }
}

fn resolve_link_target_chars(source: &Vec<char>, raw: &Vec<char>) -> (r: Option<Vec<char>>)
    ensures
        r matches Some(x) ==> resolve_link_target(source@, raw@) == Some(x@),
        r is None ==> resolve_link_target(source@, raw@) is None,
{
    let empty: Vec<char> = Vec::new();
    assert(empty@ =~= Seq::<char>::empty());
    if raw.len() == 0 {
        None
    } else if raw[0] == '/' {
        let stripped = strip_slashes_chars(raw);
        if stripped.len() == 0 {
            None
        } else {
            resolve_relative_chars(&empty, &with_md_chars(&stripped))
        }
    } else if is_note_relative_chars(raw) {
        resolve_relative_chars(&parent_chars(source), &with_md_chars(raw))
    } else {
        resolve_relative_chars(&empty, &with_md_chars(raw))
    }
}

/// The vault path that a wiki-link target leads to from the note `source_path`:
/// `./` and `../` targets from the note's folder, others from the vault root,
/// with `.md` added when missing. `None` when empty or leaving the vault.
pub fn resolve_wiki_target(source_path: &str, raw_target: &str) -> (r: Option<String>)
    ensures
        r matches Some(x) ==> resolve_link_target(source_path@, raw_target@) == Some(x@),
        r is None ==> resolve_link_target(source_path@, raw_target@) is None,
{
    match resolve_link_target_chars(&chars_of(source_path), &chars_of(raw_target)) {
        Some(p) => Some(string_of(&p)),
        None => None,
    }
}

/// Resolves a link typed in the note `source_path` to a vault path.
pub fn resolve_note_link(source_path: &str, raw_target: &str) -> (r: Option<String>)
    ensures
        r matches Some(x) ==> resolve_link_target(source_path@, raw_target@) == Some(x@),
        r is None ==> resolve_link_target(source_path@, raw_target@) is None,
{
    resolve_wiki_target(source_path, raw_target)
}

/// How many leading segments `a` and `b` share.
pub open spec fn common_len(a: Seq<Seq<char>>, b: Seq<Seq<char>>) -> nat
    decreases a.len(),
{
    if a.len() == 0 || b.len() == 0 || a[0] != b[0] {
        0
    } else {
        1 + common_len(a.drop_first(), b.drop_first())
    }
}

/// `n` times `../`.
pub open spec fn ups(n: nat) -> Seq<char>
    decreases n,
{
    if n == 0 {
        Seq::empty()
    } else {
        ups((n - 1) as nat) + dot_dot_slash()
    }
}

/// The path that leads from the folder `from_dir` to `to`: `../` for each folder to
/// leave, then the rest of `to`; `./` marks a path below the folder, and a file in
/// the folder itself is its bare name.
pub open spec fn relative_path(from_dir: Seq<char>, to: Seq<char>) -> Seq<char> {
    let f = dir_segments(from_dir);
    let t = split_slash(to);
    let k = common_len(f, t.drop_last());
    let rest = t.skip(k as int);
    if f.len() == k {
        if rest.len() == 1 {
            rest[0]
        } else {
            dot_slash() + join_slash(rest)
        }
    } else {
        ups((f.len() - k) as nat) + join_slash(rest)
    }
}

fn seg_eq(a: &Vec<char>, b: &Vec<char>) -> (r: bool)
    ensures
        r == (a@ == b@),
{
    chars_eq(a, b)
}

/// The relative path from the folder `from_dir` to the vault path `to`.
pub fn compute_relative_path(from_dir: &str, to: &str) -> (r: String)
    ensures
        r@ == relative_path(from_dir@, to@),
{
    string_of(&relative_path_chars(&chars_of(from_dir), &chars_of(to)))
}

fn relative_path_chars(from_dir: &Vec<char>, to: &Vec<char>) -> (r: Vec<char>)
    ensures
        r@ == relative_path(from_dir@, to@),
{
    let f: Vec<Vec<char>> = if from_dir.len() == 0 {
        Vec::new()
    } else {
        split_slash_chars(from_dir)
    };
    assert(views(f@) == dir_segments(from_dir@)) by {
        if from_dir@.len() == 0 {
            assert(views(f@) =~= Seq::<Seq<char>>::empty());
        }
    }
    let t = split_slash_chars(to);
    proof {
        crate::paths::lemma_split_nonempty(to@);
    }
    let ghost fv = views(f@);
    let ghost tv = views(t@).drop_last();
    let mut k: usize = 0;
    assert(fv.skip(0) =~= fv);
    assert(tv.skip(0) =~= tv);
    while k < f.len() && k < t.len() - 1 && seg_eq(&f[k], &t[k])
        invariant
            fv == views(f@),
            tv == views(t@).drop_last(),
            t@.len() >= 1,
            k <= f@.len(),
            k <= tv.len(),
            common_len(fv, tv) == k + common_len(fv.skip(k as int), tv.skip(k as int)),
        decreases f@.len() - k,
    {
        assert(fv.skip(k as int).drop_first() =~= fv.skip(k + 1));
        assert(tv.skip(k as int).drop_first() =~= tv.skip(k + 1));
        assert(fv.skip(k as int)[0] == f@[k as int]@);
        assert(tv.skip(k as int)[0] == t@[k as int]@);
        k += 1;
    }
    assert(common_len(fv.skip(k as int), tv.skip(k as int)) == 0) by {
        if k < f@.len() && k < tv.len() {
            assert(fv.skip(k as int)[0] == f@[k as int]@);
            assert(tv.skip(k as int)[0] == t@[k as int]@);
        }
    }
    let mut rest: Vec<Vec<char>> = Vec::new();
    let mut j: usize = k;
    while j < t.len()
        invariant
            k <= j <= t@.len(),
            views(rest@) == views(t@).subrange(k as int, j as int),
        decreases t@.len() - j,
    {
        let seg = slice_chars(&t[j], 0, t[j].len());
        assert(seg@ =~= t@[j as int]@);
        let ghost before = rest@;
        rest.push(seg);
        assert(views(rest@) =~= views(before).push(t@[j as int]@));
        j += 1;
        assert(views(rest@) =~= views(t@).subrange(k as int, j as int));
    }
    assert(views(rest@) =~= views(t@).skip(k as int));
    let mut out: Vec<char> = Vec::new();
    if f.len() == k {
        if rest.len() == 1 {
            return rest[0].clone();
        }
        out.push('.');
        out.push('/');
        let j = join_slash_chars(&rest);
        extend_chars(&mut out, &j);
        assert(out@ =~= dot_slash() + join_slash(views(rest@)));
    } else {
        let n = f.len() - k;
        let mut u: usize = 0;
        assert(out@ =~= ups(0));
        while u < n
            invariant
                u <= n,
                out@ == ups(u as nat),
            decreases n - u,
        {
            out.push('.');
            out.push('.');
            out.push('/');
            u += 1;
            assert(out@ =~= ups(u as nat));
        }
        let j = join_slash_chars(&rest);
        extend_chars(&mut out, &j);
    }
    out
}

/// `p` when it already starts with `./` or `../`, else `./` followed by `p`.
pub open spec fn marked_relative(p: Seq<char>) -> Seq<char> {
    if is_note_relative(p) {
        p
    } else {
        dot_slash() + p
    }
}

/// How a wiki link writes `target` from the note `source`: without `.md`; when
/// `note_relative`, as a path from the note's folder marked by `./` or `../` (a note
/// at the vault root writes the plain path).
pub open spec fn wiki_target_form(source: Seq<char>, target: Seq<char>, note_relative: bool) -> Seq<
    char,
> {
    let bare = without_md(target);
    if !note_relative || parent_of(source).len() == 0 {
        bare
    } else {
        marked_relative(relative_path(parent_of(source), bare))
    }
}

fn wiki_target_form_chars(source: &Vec<char>, target: &Vec<char>, note_relative: bool) -> (r: Vec<
    char,
>)
    ensures
        r@ == wiki_target_form(source@, target@, note_relative),
{
    let bare = without_md_chars(target);
    let dir = parent_chars(source);
    if !note_relative || dir.len() == 0 {
        bare
    } else {
        let rel = relative_path_chars(&dir, &bare);
        if is_note_relative_chars(&rel) {
            rel
        } else {
            let mut out: Vec<char> = vec!['.', '/'];
            extend_chars(&mut out, &rel);
            out
        }
    }
}

/// The target text of a wiki link to `target_path` written in `source_path`.
pub fn format_wiki_target(source_path: &str, target_path: &str, note_relative: bool) -> (r: String)
    ensures
        r@ == wiki_target_form(source_path@, target_path@, note_relative),
{
    string_of(&wiki_target_form_chars(&chars_of(source_path), &chars_of(target_path), note_relative))
}

/// How a markdown link in `source` writes `target`: the path from the note's folder,
/// with `.md`, and with no leading `./`.
pub open spec fn md_href_form(source: Seq<char>, target: Seq<char>) -> Seq<char> {
    if parent_of(source).len() == 0 {
        target
    } else {
        let rel = relative_path(parent_of(source), target);
        if has_at(rel, 0, dot_slash()) {
            rel.skip(2)
        } else {
            rel
        }
    }
}

fn md_href_form_chars(source: &Vec<char>, target: &Vec<char>) -> (r: Vec<char>)
    ensures
        r@ == md_href_form(source@, target@),
{
    let dir = parent_chars(source);
    if dir.len() == 0 {
        target.clone()
    } else {
        let rel = relative_path_chars(&dir, target);
        let ds: Vec<char> = vec!['.', '/'];
        if matches_at(&rel, 0, &ds) {
            let r = slice_chars(&rel, 2, rel.len());
            assert(r@ =~= rel@.skip(2));
            r
        } else {
            rel
        }
    }
}

/// The href of a markdown link to `target_path` written in `source_path`.
pub fn format_markdown_link_href(source_path: &str, target_path: &str) -> (r: String)
    ensures
        r@ == md_href_form(source_path@, target_path@),
{
    string_of(&md_href_form_chars(&chars_of(source_path), &chars_of(target_path)))
}


/// What a rewrite produced: the new body, and whether any link changed.
#[derive(Debug, Clone, PartialEq, Eq)]
pub struct RewriteResult {
    pub markdown: String,
    pub changed: bool,
}

/// The texts of a list of (old path, new path) renames.
pub open spec fn pairs(v: Seq<(String, String)>) -> Seq<(Seq<char>, Seq<char>)> {
    v.map_values(|p: (String, String)| (p.0@, p.1@))
}

/// The texts of a list of renames held as characters.
pub open spec fn cpairs(v: Seq<(Vec<char>, Vec<char>)>) -> Seq<(Seq<char>, Seq<char>)> {
    v.map_values(|p: (Vec<char>, Vec<char>)| (p.0@, p.1@))
}

/// The new path of `k` under the renames `m` (the first entry for `k` counts).
pub open spec fn lookup(m: Seq<(Seq<char>, Seq<char>)>, k: Seq<char>) -> Option<Seq<char>>
    decreases m.len(),
{
    if m.len() == 0 {
        None
    } else if m[0].0 == k {
        Some(m[0].1)
    } else {
        lookup(m.drop_first(), k)
    }
}

/// Where the note at `p` is after the renames `m`.
pub open spec fn moved(m: Seq<(Seq<char>, Seq<char>)>, p: Seq<char>) -> Seq<char> {
    match lookup(m, p) {
        Some(q) => q,
        None => p,
    }
}

/// The target part of a wiki link's inside: before any `|` and `#`.
pub open spec fn wiki_target_part(inner: Seq<char>) -> Seq<char> {
    before_char(before_char(inner, '|'), '#')
}

/// The new inside of a wiki link, when its meaning changes: the link pointed, from
/// `old`, at a note that now lies at `moved(m, …)`, and its text read from `new`
/// no longer leads there. The fragment and alias are kept.
pub open spec fn wiki_replacement(
    inner: Seq<char>,
    old: Seq<char>,
    new: Seq<char>,
    m: Seq<(Seq<char>, Seq<char>)>,
) -> Option<Seq<char>> {
    let tp = wiki_target_part(inner);
    let tail = inner.skip(tp.len() as int);
    let d = utf8_lossy(pct_decode(trim(tp)));
    if d.len() == 0 || is_external(d) {
        None
    } else {
        match resolve_link_target(old, d) {
            None => None,
            Some(cur) => {
                let dest = moved(m, cur);
                if resolve_link_target(new, d) == Some(dest) {
                    None
                } else {
                    let form = if d[0] == '/' {
                        seq!['/'] + wiki_target_form(new, dest, false)
                    } else {
                        wiki_target_form(new, dest, is_note_relative(d))
                    };
                    if form + tail == inner {
                        None
                    } else {
                        Some(form + tail)
                    }
                }
            },
        }
    }
}

/// Where a markdown href leads from `source`: from the note's folder after `./` or
/// `../`, otherwise from the vault root.
pub open spec fn md_resolve(source: Seq<char>, d: Seq<char>) -> Option<Seq<char>> {
    if is_note_relative(d) {
        resolve_relative(parent_of(source), d)
    } else {
        resolve_relative(Seq::empty(), d)
    }
}

/// The new href of a markdown link, when its meaning changes; angle brackets are kept.
pub open spec fn md_replacement(
    href: Seq<char>,
    old: Seq<char>,
    new: Seq<char>,
    m: Seq<(Seq<char>, Seq<char>)>,
) -> Option<Seq<char>> {
    match md_target_text(href) {
        None => None,
        Some(d) => match md_resolve(old, d) {
            None => None,
            Some(cur) => {
                let dest = moved(m, cur);
                if md_resolve(new, d) == Some(dest) {
                    None
                } else {
                    let body = if is_note_relative(d) {
                        md_href_form(new, dest)
                    } else {
                        dest
                    };
                    let text = if trim(href).len() > 0 && trim(href)[0] == '<' {
                        seq!['<'] + body + seq!['>']
                    } else {
                        body
                    };
                    if text == href {
                        None
                    } else {
                        Some(text)
                    }
                }
            },
        },
    }
}

/// The new target text of one link of `s`, if it changes.
pub open spec fn replacement(
    s: Seq<char>,
    l: LinkSpan,
    old: Seq<char>,
    new: Seq<char>,
    m: Seq<(Seq<char>, Seq<char>)>,
) -> Option<Seq<char>> {
    if l.embed {
        None
    } else {
        match span_text(s, l.target_start, l.target_end) {
            Some(text) => if l.wiki {
                wiki_replacement(text, old, new, m)
            } else {
                md_replacement(text, old, new, m)
            },
            None => None,
        }
    }
}

/// Where the links that a rewrite may touch stand: every located link but embeds.
pub open spec fn spans_of(links: Seq<LinkView>) -> Seq<LinkSpan>
    decreases links.len(),
{
    if links.len() == 0 {
        Seq::empty()
    } else {
        let l = links.last();
        match l.4 {
            Some(sp) => if !l.1 {
                spans_of(links.drop_last()).push(sp)
            } else {
                spans_of(links.drop_last())
            },
            None => spans_of(links.drop_last()),
        }
    }
}

fn spans_exec(links: &Vec<LinkRecord>) -> (r: Vec<LinkSpan>)
    ensures
        r@ == spans_of(record_views(links@)),
{
    let ghost lv = record_views(links@);
    let mut out: Vec<LinkSpan> = Vec::new();
    let mut i: usize = 0;
    assert(lv.take(0) =~= Seq::<LinkView>::empty());
    while i < links.len()
        invariant
            i <= links.len(),
            lv == record_views(links@),
            out@ == spans_of(lv.take(i as int)),
        decreases links.len() - i,
    {
        assert(lv.take(i + 1).drop_last() =~= lv.take(i as int));
        assert(lv.take(i + 1).last() == (links[i as int].wiki, links[i as int].embed, links[i as int].url@, links[i as int].label@, links[i as int].span));
        match links[i].span {
            Some(sp) => if !links[i].embed {
                out.push(sp);
            },
            None => {},
        }
        i += 1;
    }
    assert(lv.take(i as int) =~= lv);
    out
}

/// Rewriting `s` over the links `spans`: the text written so far, the position in
/// `s` up to which it is written, and whether a link changed.
pub open spec fn splice(
    s: Seq<char>,
    spans: Seq<LinkSpan>,
    old: Seq<char>,
    new: Seq<char>,
    m: Seq<(Seq<char>, Seq<char>)>,
) -> (Seq<char>, int, bool)
    decreases spans.len(),
{
    if spans.len() == 0 {
        (Seq::empty(), 0, false)
    } else {
        let (out, pos, ch) = splice(s, spans.drop_last(), old, new, m);
        let l = spans.last();
        if pos <= l.target_start && l.target_start <= l.target_end && l.target_end <= s.len() {
            match replacement(s, l, old, new, m) {
                Some(x) => (out + s.subrange(pos, l.target_start as int) + x, l.target_end as int, true),
                None => (out, pos, ch),
            }
        } else {
            (out, pos, ch)
        }
    }
}

/// The body `s` after the move of its note from `old` to `new` and the renames `m`.
pub open spec fn rewritten(
    s: Seq<char>,
    old: Seq<char>,
    new: Seq<char>,
    m: Seq<(Seq<char>, Seq<char>)>,
) -> (Seq<char>, bool) {
    let (out, pos, ch) = splice(s, spans_of(links_of(s)), old, new, m);
    (out + s.skip(pos), ch)
}

fn lookup_exec(m: &Vec<(Vec<char>, Vec<char>)>, k: &Vec<char>) -> (r: Option<Vec<char>>)
    ensures
        r matches Some(x) ==> lookup(cpairs(m@), k@) == Some(x@),
        r is None ==> lookup(cpairs(m@), k@) is None,
{
    let mut i: usize = 0;
    assert(cpairs(m@).skip(0) =~= cpairs(m@));
    while i < m.len()
        invariant
            i <= m.len(),
            lookup(cpairs(m@), k@) == lookup(cpairs(m@).skip(i as int), k@),
        decreases m.len() - i,
    {
        assert(cpairs(m@).skip(i as int)[0] == (m@[i as int].0@, m@[i as int].1@));
        assert(cpairs(m@).skip(i as int).drop_first() =~= cpairs(m@).skip(i + 1));
        if chars_eq(&m[i].0, k) {
            return Some(slice_chars(&m[i].1, 0, m[i].1.len()));
        }
        i += 1;
    }
    None
}

fn moved_exec(m: &Vec<(Vec<char>, Vec<char>)>, p: &Vec<char>) -> (r: Vec<char>)
    ensures
        r@ == moved(cpairs(m@), p@),
{
    match lookup_exec(m, p) {
        Some(q) => q,
        None => slice_chars(p, 0, p.len()),
    }
}

fn opt_eq(a: &Option<Vec<char>>, b: &Vec<char>) -> (r: bool)
    ensures
        r == (match a {
            Some(x) => x@ == b@,
            None => false,
        }),
{
    match a {
        Some(x) => chars_eq(x, b),
        None => false,
    }
}

fn wiki_replacement_exec(
    inner: &Vec<char>,
    old: &Vec<char>,
    new: &Vec<char>,
    m: &Vec<(Vec<char>, Vec<char>)>,
) -> (r: Option<Vec<char>>)
    ensures
        r matches Some(x) ==> wiki_replacement(inner@, old@, new@, cpairs(m@)) == Some(x@),
        r is None ==> wiki_replacement(inner@, old@, new@, cpairs(m@)) is None,
{
    let tp = before_char_chars(&before_char_chars(inner, '|'), '#');
    proof {
        lemma_before_char_prefix(before_char(inner@, '|'), '#');
        lemma_before_char_prefix(inner@, '|');
    }
    let tail = slice_chars(inner, tp.len(), inner.len());
    assert(tail@ =~= inner@.skip(tp@.len() as int));
    let d = decode_percent_chars(&trim_chars(&tp));
    if d.len() == 0 || is_external_chars(&d) {
        return None;
    }
    match resolve_link_target_chars(old, &d) {
        None => None,
        Some(cur) => {
            let dest = moved_exec(m, &cur);
            let now = resolve_link_target_chars(new, &d);
            if opt_eq(&now, &dest) {
                return None;
            }
            let mut form: Vec<char> = if d[0] == '/' {
                let mut f: Vec<char> = vec!['/'];
                let w = wiki_target_form_chars(new, &dest, false);
                extend_chars(&mut f, &w);
                assert(f@ =~= seq!['/'] + wiki_target_form(new@, dest@, false));
                f
            } else {
                wiki_target_form_chars(new, &dest, is_note_relative_chars(&d))
            };
            let ghost form0 = form@;
            extend_chars(&mut form, &tail);
            assert(form@ == form0 + inner@.skip(tp@.len() as int));
            if chars_eq(&form, inner) {
                None
            } else {
                Some(form)
            }
        },
    }
}

proof fn lemma_find_off_bound(s: Seq<char>, q: int, c: char)
    requires
        0 <= q,
        find_off(s, q, c) is Some,
    ensures
        q + find_off(s, q, c)->0 < s.len(),
    decreases s.len() - q,
{
    if q < s.len() && s[q] != c {
        lemma_find_off_bound(s, q + 1, c);
    }
}

proof fn lemma_before_char_prefix(s: Seq<char>, c: char)
    ensures
        before_char(s, c).len() <= s.len(),
{
    if find_off(s, 0, c) is Some {
        lemma_find_off_bound(s, 0, c);
    }
}

fn md_resolve_exec(source: &Vec<char>, d: &Vec<char>) -> (r: Option<Vec<char>>)
    ensures
        r matches Some(x) ==> md_resolve(source@, d@) == Some(x@),
        r is None ==> md_resolve(source@, d@) is None,
{
    if is_note_relative_chars(d) {
        resolve_relative_chars(&parent_chars(source), d)
    } else {
        let empty: Vec<char> = Vec::new();
        assert(empty@ =~= Seq::<char>::empty());
        resolve_relative_chars(&empty, d)
    }
}

fn md_replacement_exec(
    href: &Vec<char>,
    old: &Vec<char>,
    new: &Vec<char>,
    m: &Vec<(Vec<char>, Vec<char>)>,
) -> (r: Option<Vec<char>>)
    ensures
        r matches Some(x) ==> md_replacement(href@, old@, new@, cpairs(m@)) == Some(x@),
        r is None ==> md_replacement(href@, old@, new@, cpairs(m@)) is None,
{
    match md_target_chars(href) {
        None => None,
        Some(d) => match md_resolve_exec(old, &d) {
            None => None,
            Some(cur) => {
                let dest = moved_exec(m, &cur);
                let now = md_resolve_exec(new, &d);
                if opt_eq(&now, &dest) {
                    return None;
                }
                let body = if is_note_relative_chars(&d) {
                    md_href_form_chars(new, &dest)
                } else {
                    dest
                };
                let t = trim_chars(href);
                let text = if t.len() > 0 && t[0] == '<' {
                    let mut x: Vec<char> = vec!['<'];
                    extend_chars(&mut x, &body);
                    x.push('>');
                    assert(x@ =~= seq!['<'] + body@ + seq!['>']);
                    x
                } else {
                    body
                };
                if chars_eq(&text, href) {
                    None
                } else {
                    Some(text)
                }
            },
        },
    }
}

fn replacement_exec(
    v: &Vec<char>,
    l: LinkSpan,
    old: &Vec<char>,
    new: &Vec<char>,
    m: &Vec<(Vec<char>, Vec<char>)>,
) -> (r: Option<Vec<char>>)
    ensures
        r matches Some(x) ==> replacement(v@, l, old@, new@, cpairs(m@)) == Some(x@),
        r is None ==> replacement(v@, l, old@, new@, cpairs(m@)) is None,
{
    if l.embed {
        return None;
    }
    if !(l.target_start <= l.target_end && l.target_end <= v.len()) {
        return None;
    }
    let text = slice_chars(v, l.target_start, l.target_end);
    if l.wiki {
        wiki_replacement_exec(&text, old, new, m)
    } else {
        md_replacement_exec(&text, old, new, m)
    }
}

fn map_chars(target_map: &Vec<(String, String)>) -> (r: Vec<(Vec<char>, Vec<char>)>)
    ensures
        cpairs(r@) == pairs(target_map@),
{
    let mut out: Vec<(Vec<char>, Vec<char>)> = Vec::new();
    let mut i: usize = 0;
    while i < target_map.len()
        invariant
            i <= target_map.len(),
            cpairs(out@) == pairs(target_map@).take(i as int),
        decreases target_map.len() - i,
    {
        let a = chars_of(target_map[i].0.as_str());
        let b = chars_of(target_map[i].1.as_str());
        let ghost before = out@;
        assert(a@ == target_map@[i as int].0@ && b@ == target_map@[i as int].1@);
        assert(pairs(target_map@)[i as int] == (target_map@[i as int].0@, target_map@[i as int].1@));
        out.push((a, b));
        assert(cpairs(out@) =~= cpairs(before).push((a@, b@)));
        assert(pairs(target_map@).take(i + 1) =~= pairs(target_map@).take(i as int).push(pairs(target_map@)[i as int]));
        assert(cpairs(out@) =~= pairs(target_map@).take(i + 1));
        i += 1;
    }
    assert(pairs(target_map@).take(i as int) =~= pairs(target_map@));
    out
}

/// Rewrites the links of `markdown` after its note moved from `old_source_path` to
/// `new_source_path` and the notes named in `target_map` moved to the paths paired
/// with them. A link is rewritten only where its meaning changed; links in code,
/// embeds, images and web links stay. Wiki links drop `.md` and keep alias and
/// fragment; links starting `./` or `../` stay relative to the note's folder, the
/// others stay vault paths. Unchanged bodies come back as they were.
pub fn rewrite_links(
    markdown: &str,
    old_source_path: &str,
    new_source_path: &str,
    target_map: &Vec<(String, String)>,
) -> (r: RewriteResult)
    ensures
        (r.markdown@, r.changed) == rewritten(
            markdown@,
            old_source_path@,
            new_source_path@,
            pairs(target_map@),
        ),
{
    let v = chars_of(markdown);
    let old = chars_of(old_source_path);
    let new = chars_of(new_source_path);
    let m = map_chars(target_map);
    let spans = spans_exec(&link_records(markdown));
    let mut out: Vec<char> = Vec::new();
    let mut pos: usize = 0;
    let mut changed = false;
    let mut i: usize = 0;
    assert(spans@.take(0) =~= Seq::<LinkSpan>::empty());
    assert(out@ =~= Seq::<char>::empty());
    while i < spans.len()
        invariant
            i <= spans.len(),
            pos <= v.len(),
            splice(v@, spans@.take(i as int), old@, new@, cpairs(m@)) == (out@, pos as int, changed),
        decreases spans.len() - i,
    {
        let l = spans[i];
        assert(spans@.take(i + 1).drop_last() =~= spans@.take(i as int));
        assert(spans@.take(i + 1).last() == l);
        if pos <= l.target_start && l.target_start <= l.target_end && l.target_end <= v.len() {
            match replacement_exec(&v, l, &old, &new, &m) {
                Some(x) => {
                    let ghost before = out@;
                    extend_chars(&mut out, &slice_chars(&v, pos, l.target_start));
                    extend_chars(&mut out, &x);
                    assert(out@ =~= before + v@.subrange(pos as int, l.target_start as int) + x@);
                    pos = l.target_end;
                    changed = true;
                },
                None => {},
            }
        }
        i += 1;
    }
    assert(spans@.take(i as int) =~= spans@);
    let ghost before = out@;
    extend_chars(&mut out, &slice_chars(&v, pos, v.len()));
    assert(out@ =~= before + v@.skip(pos as int));
    RewriteResult { markdown: string_of(&out), changed }
}


proof fn lemma_no_replacement_when_nothing_moves(s: Seq<char>, l: LinkSpan, src: Seq<char>)
    ensures
        replacement(s, l, src, src, Seq::empty()) is None,
{
    let m = Seq::<(Seq<char>, Seq<char>)>::empty();
    assert forall|p: Seq<char>| moved(m, p) == p by {}
}

proof fn lemma_splice_untouched(s: Seq<char>, spans: Seq<LinkSpan>, src: Seq<char>)
    ensures
        splice(s, spans, src, src, Seq::empty()) == (Seq::<char>::empty(), 0int, false),
    decreases spans.len(),
{
    if spans.len() > 0 {
        lemma_splice_untouched(s, spans.drop_last(), src);
        lemma_no_replacement_when_nothing_moves(s, spans.last(), src);
    }
}

/// A note that stays where it is, with no other note moved, keeps its body: the
/// rewrite reports no change and hands the text back as it was.
pub proof fn lemma_rewrite_identity(markdown: Seq<char>, source: Seq<char>)
    ensures
        rewritten(markdown, source, source, Seq::empty()) == (markdown, false),
{
    lemma_splice_untouched(markdown, spans_of(links_of(markdown)), source);
    assert(Seq::<char>::empty() + markdown.skip(0) =~= markdown);
}

/// The path names a file in the vault: it splits into plain segments only (none
/// empty, `.` or `..`), so it neither climbs out of the vault nor holds `./`-style
/// steps.
pub open spec fn is_normal_path(p: Seq<char>) -> bool {
    forall|k: int| 0 <= k < split_slash(p).len() ==> is_plain_segment(#[trigger] split_slash(p)[k])
}

proof fn lemma_resolve_parts_plain(base: Seq<Seq<char>>, parts: Seq<Seq<char>>)
    requires
        forall|k: int| 0 <= k < base.len() ==> is_plain_segment(#[trigger] base[k]),
        forall|k: int| 0 <= k < parts.len() ==> !(#[trigger] parts[k]).contains('/'),
    ensures
        resolve_parts(base, parts) matches Some(st) ==> forall|k: int| 0 <= k < st.len() ==> is_plain_segment(#[trigger] st[k]),
    decreases parts.len(),
{
    if parts.len() > 0 {
        let init = parts.drop_last();
        assert forall|k: int| 0 <= k < init.len() implies !(#[trigger] init[k]).contains('/') by {
            assert(init[k] == parts[k]);
        }
        lemma_resolve_parts_plain(base, init);
        assert(!parts.last().contains('/')) by {
            assert(parts[parts.len() - 1] == parts.last());
        }
        if let Some(st) = resolve_parts(base, init) {
            let part = parts.last();
            if !(part.len() == 0 || is_dot(part)) && is_dotdot(part) && st.len() > 0 {
                assert forall|k: int| 0 <= k < st.drop_last().len() implies is_plain_segment(#[trigger] st.drop_last()[k]) by {
                    assert(st.drop_last()[k] == st[k]);
                }
            }
            if !(part.len() == 0 || is_dot(part)) && !is_dotdot(part) {
                assert forall|k: int| 0 <= k < st.push(part).len() implies is_plain_segment(#[trigger] st.push(part)[k]) by {
                    if k < st.len() {
                        assert(st.push(part)[k] == st[k]);
                    }
                }
            }
        }
    }
}

proof fn lemma_resolve_relative_normal(dir: Seq<char>, target: Seq<char>)
    requires
        forall|k: int| 0 <= k < dir_segments(dir).len() ==> is_plain_segment(#[trigger] dir_segments(dir)[k]),
    ensures
        resolve_relative(dir, target) matches Some(p) ==> is_normal_path(p),
{
    crate::paths::lemma_split_no_slash(target);
    lemma_resolve_parts_plain(dir_segments(dir), split_slash(target));
    if let Some(st) = resolve_parts(dir_segments(dir), split_slash(target)) {
        if join_slash(st).len() > 0 {
            if st.len() == 0 {
                assert(join_slash(st).len() == 0);
            }
            assert forall|k: int| 0 <= k < st.len() implies !(#[trigger] st[k]).contains('/') by {
                assert(is_plain_segment(st[k]));
            }
            crate::paths::lemma_split_join(st);
        }
    }
}

proof fn lemma_parent_plain(s: Seq<char>)
    requires
        is_normal_path(s),
    ensures
        forall|k: int| 0 <= k < dir_segments(parent_of(s)).len() ==> is_plain_segment(#[trigger] dir_segments(parent_of(s))[k]),
{
    crate::paths::lemma_last_slash(s);
    let ls = last_slash(s);
    if ls >= 0 && ls > 0 {
        let a = s.take(ls + 1);
        let b = s.skip(ls + 1);
        assert(!b.contains('/')) by {
            if b.contains('/') {
                let j = choose|j: int| 0 <= j < b.len() && b[j] == '/';
                assert(s[ls + 1 + j] == '/');
            }
        }
        assert(a + b =~= s);
        crate::paths::lemma_split_append_plain_pub(a, b);
        assert(a.drop_last() =~= s.take(ls));
        assert(a.last() == '/');
        crate::paths::lemma_split_nonempty(s.take(ls));
        let pre = split_slash(s.take(ls));
        assert(split_slash(a) == pre.push(Seq::empty()));
        assert(Seq::<char>::empty() + b =~= b);
        assert(split_slash(s) =~= pre.push(b));
        assert(parent_of(s) == s.take(ls));
        assert forall|k: int| 0 <= k < pre.len() implies is_plain_segment(#[trigger] pre[k]) by {
            assert(split_slash(s)[k] == pre[k]);
        }
    } else {
        assert(parent_of(s).len() == 0 || ls == 0);
        if ls == 0 {
            assert(parent_of(s) =~= Seq::<char>::empty());
        }
    }
}

/// A link that resolves from a note with a normal path leads to a normal path: it
/// holds no `.` or `..` step and stays inside the vault.
pub proof fn lemma_resolved_link_is_normal(source: Seq<char>, raw: Seq<char>)
    requires
        is_normal_path(source),
    ensures
        resolve_link_target(source, raw) matches Some(p) ==> is_normal_path(p) && ends_with_md(p),
{
    lemma_parent_plain(source);
    assert(dir_segments(Seq::<char>::empty()).len() == 0);
    if raw.len() > 0 {
        if raw[0] == '/' {
            lemma_resolve_relative_normal(Seq::empty(), with_md(strip_slashes(raw)));
            lemma_resolve_relative_md(Seq::empty(), strip_slashes(raw));
        } else if is_note_relative(raw) {
            lemma_resolve_relative_normal(parent_of(source), with_md(raw));
            lemma_resolve_relative_md(parent_of(source), raw);
        } else {
            lemma_resolve_relative_normal(Seq::empty(), with_md(raw));
            lemma_resolve_relative_md(Seq::empty(), raw);
        }
    }
}

proof fn lemma_split_last(t: Seq<char>)
    ensures
        split_slash(t).len() >= 1,
        split_slash(t).last() == crate::paths::leaf_of(t),
    decreases t.len(),
{
    crate::paths::lemma_split_nonempty(t);
    if t.len() == 0 {
        assert(crate::paths::leaf_of(t) =~= Seq::<char>::empty());
    } else {
        let init = t.drop_last();
        lemma_split_last(init);
        crate::paths::lemma_last_slash(init);
        if t.last() == '/' {
            assert(crate::paths::leaf_of(t) =~= Seq::<char>::empty());
        } else {
            assert(last_slash(t) == last_slash(init));
            assert(crate::paths::leaf_of(t) =~= crate::paths::leaf_of(init).push(t.last()));
        }
    }
}

proof fn lemma_md_leaf(t: Seq<char>)
    requires
        ends_with_md(t),
    ensures
        is_plain_segment(crate::paths::leaf_of(t)),
        ends_with_md(crate::paths::leaf_of(t)),
{
    crate::paths::lemma_last_slash(t);
    let n = t.len();
    let ls = last_slash(t);
    assert forall|j: int| 0 <= j < 3 implies #[trigger] t[n - 3 + j] != '/' by {
        assert(crate::text::same_ci(t[n - 3 + j], md_suffix()[j]));
    }
    if ls >= n - 3 {
        assert(t[ls] == '/');
        assert(t[n - 3 + (ls - (n - 3))] != '/');
    }
    let leaf = crate::paths::leaf_of(t);
    assert(leaf.len() >= 3);
    assert forall|j: int| 0 <= j < 3 implies crate::text::same_ci(#[trigger] leaf[leaf.len() - 3 + j], md_suffix()[j]) by {
        assert(leaf[leaf.len() - 3 + j] == t[n - 3 + j]);
        assert(crate::text::same_ci(t[n - 3 + j], md_suffix()[j]));
    }
    assert forall|j: int| 0 <= j < leaf.len() implies leaf[j] != '/' by {
        assert(leaf[j] == t[ls + 1 + j]);
    }
    assert(!leaf.contains('/'));
    assert(!is_dot(leaf) && !is_dotdot(leaf));
}

proof fn lemma_join_suffix(st: Seq<Seq<char>>)
    requires
        st.len() >= 1,
    ensures
        join_slash(st).len() >= st.last().len(),
        join_slash(st).skip(join_slash(st).len() - st.last().len()) == st.last(),
    decreases st.len(),
{
    if st.len() == 1 {
        assert(join_slash(st).skip(0) =~= st[0]);
    } else {
        let j = join_slash(st);
        assert(j == join_slash(st.drop_last()) + seq!['/'] + st.last());
        assert(j.skip(j.len() - st.last().len()) =~= st.last());
    }
}

proof fn lemma_resolve_relative_md(dir: Seq<char>, x: Seq<char>)
    ensures
        resolve_relative(dir, with_md(x)) matches Some(p) ==> ends_with_md(p),
{
    let t = with_md(x);
    lemma_ends_md(x);
    assert(ends_with_md(t));
    lemma_split_last(t);
    lemma_md_leaf(t);
    let parts = split_slash(t);
    let leaf = crate::paths::leaf_of(t);
    if let Some(st) = resolve_parts(dir_segments(dir), parts) {
        assert(parts.last() == leaf);
        if let Some(st0) = resolve_parts(dir_segments(dir), parts.drop_last()) {
            assert(st == st0.push(leaf));
            lemma_join_suffix(st);
            let p = join_slash(st);
            assert forall|j: int| 0 <= j < 3 implies crate::text::same_ci(#[trigger] p[p.len() - 3 + j], md_suffix()[j]) by {
                assert(p.skip(p.len() - leaf.len())[leaf.len() - 3 + j] == leaf[leaf.len() - 3 + j]);
                assert(crate::text::same_ci(leaf[leaf.len() - 3 + j], md_suffix()[j]));
            }
        }
    }
}

proof fn lemma_strip_slashes_append(t: Seq<char>, x: Seq<char>)
    requires
        strip_slashes(t).len() > 0,
    ensures
        strip_slashes(t + x) == strip_slashes(t) + x,
    decreases t.len(),
{
    if t.len() > 0 && t[0] == '/' {
        assert((t + x).drop_first() =~= t.drop_first() + x);
        lemma_strip_slashes_append(t.drop_first(), x);
    } else {
        assert(t.len() > 0);
        assert((t + x)[0] == t[0]);
    }
}

proof fn lemma_ends_md(t: Seq<char>)
    ensures
        ends_with_md(t + md_suffix()),
        !ends_with_md(t) ==> with_md(t) == t + md_suffix(),
{
    let u = t + md_suffix();
    assert forall|j: int| 0 <= j < 3 implies crate::text::same_ci(#[trigger] u[u.len() - 3 + j], md_suffix()[j]) by {
        assert(u[u.len() - 3 + j] == md_suffix()[j]);
    }
}

proof fn lemma_note_relative_append(t: Seq<char>)
    requires
        t.len() > 0,
    ensures
        is_note_relative(t + md_suffix()) == is_note_relative(t),
{
    let u = t + md_suffix();
    assert(u.subrange(0, 2) == dot_slash() ==> t.len() >= 2 || u[1] == '/');
    if t.len() >= 3 {
        assert(u.subrange(0, 2) =~= t.subrange(0, 2));
        assert(u.subrange(0, 3) =~= t.subrange(0, 3));
    } else if t.len() == 2 {
        assert(u.subrange(0, 2) =~= t.subrange(0, 2));
        assert(u[2] == '.');
        assert(!has_at(t, 0, dot_dot_slash()));
        if has_at(u, 0, dot_dot_slash()) {
            assert(u.subrange(0, 3)[2] == '/');
        }
    } else {
        assert(u[1] == '.');
        assert(u.subrange(0, 2)[1] == '.');
        if has_at(u, 0, dot_dot_slash()) {
            assert(u.subrange(0, 3)[2] == 'm');
        }
    }
}

/// Writing `.md` after a link target changes nothing: `[[foo.md]]` and `[[foo]]`
/// lead to the same note, both from a note's folder and as the rewriter reads them.
pub proof fn lemma_md_suffix_idempotent(source: Seq<char>, t: Seq<char>)
    requires
        t.len() > 0,
        !ends_with_md(t),
        t[0] == '/' ==> strip_slashes(t).len() > 0,
    ensures
        resolve_link_target(source, t + md_suffix()) == resolve_link_target(source, t),
        crate::links::wiki_resolve_in_dir(source, t + md_suffix()) == crate::links::wiki_resolve_in_dir(source, t),
{
    let u = t + md_suffix();
    lemma_ends_md(t);
    assert(u[0] == t[0]);
    lemma_note_relative_append(t);
    if t[0] == '/' {
        lemma_strip_slashes_append(t, md_suffix());
        lemma_ends_md(strip_slashes(t));
        if !ends_with_md(strip_slashes(t)) {
            assert(with_md(strip_slashes(u)) == with_md(strip_slashes(t)));
        } else {
            assert(with_md(strip_slashes(u)) == strip_slashes(u));
            assert(strip_slashes(t).len() >= 3);
            let st = strip_slashes(t);
            assert(st.len() <= t.len()) by {
                lemma_strip_len(t);
            }
            assert forall|j: int| 0 <= j < 3 implies crate::text::same_ci(#[trigger] t[t.len() - 3 + j], md_suffix()[j]) by {
                lemma_strip_suffix(t, j);
                assert(crate::text::same_ci(st[st.len() - 3 + j], md_suffix()[j]));
            }
            assert(ends_with_md(t));
        }
    }
}

proof fn lemma_strip_len(t: Seq<char>)
    ensures
        strip_slashes(t).len() <= t.len(),
        strip_slashes(t) == t.skip(t.len() - strip_slashes(t).len()),
    decreases t.len(),
{
    if t.len() > 0 && t[0] == '/' {
        lemma_strip_len(t.drop_first());
        assert(t.drop_first().skip(t.drop_first().len() - strip_slashes(t).len()) =~= t.skip(t.len() - strip_slashes(t).len()));
    } else {
        assert(t.skip(0) =~= t);
    }
}

proof fn lemma_strip_suffix(t: Seq<char>, j: int)
    requires
        0 <= j < 3,
        strip_slashes(t).len() >= 3,
    ensures
        t[t.len() - 3 + j] == strip_slashes(t)[strip_slashes(t).len() - 3 + j],
{
    lemma_strip_len(t);
    let st = strip_slashes(t);
    assert(st[st.len() - 3 + j] == t.skip(t.len() - st.len())[st.len() - 3 + j]);
}

} // verus!
