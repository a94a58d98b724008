//! Reading link targets out of a note body.
use vstd::prelude::*;
use vstd::string::StringExecFns;
use crate::text::{
    extend_chars,
    chars_of, string_of, slice_chars, trim, trim_chars, trim_start_index, is_whitespace_char,
    has_ci_at, matches_ci_at,
};
use crate::paths::{
    resolve_relative, resolve_relative_chars, parent_of, parent_chars, with_md, with_md_chars,
    ends_with_md, ends_with_md_chars, md_suffix, is_external, is_external_chars,
};
use crate::decode::{utf8_lossy, pct_decode, decode_percent_chars};
use crate::scan::{find_off, find_char, shift};
use crate::markdown::{LinkRecord, LinkView, links_of, link_records, record_views};

verus! {

/// The part of `s` before the first `c` (all of `s` when there is none).
pub open spec fn before_char(s: Seq<char>, c: char) -> Seq<char> {
    match find_off(s, 0, c) {
        Some(d) => s.take(d as int),
        None => s,
    }
}

/// `s` without its leading slashes.
pub open spec fn strip_slashes(s: Seq<char>) -> Seq<char>
    decreases s.len(),
{
    if s.len() > 0 && s[0] == '/' {
        strip_slashes(s.drop_first())
    } else {
        s
    }
}

/// `s` without leading white space.
pub open spec fn trim_start(s: Seq<char>) -> Seq<char> {
    s.skip(trim_start_index(s) as int)
}

/// The note that the inside of a wiki link names, before resolution: what precedes
/// `|` and `#`, trimmed and percent-decoded; `None` when empty or a web address.
pub open spec fn wiki_target_text(raw: Seq<char>) -> Option<Seq<char>> {
    let t = trim(raw);
    let a = trim(before_char(t, '|'));
    let f = trim(before_char(a, '#'));
    let d = utf8_lossy(pct_decode(f));
    if t.len() == 0 || a.len() == 0 || f.len() == 0 || d.len() == 0 || is_external(d) {
        None
    } else {
        Some(d)
    }
}

/// A `.md` (any case) at `k` ends the path of a bare href: nothing follows it, or a
/// fragment, a query, or a title in quotes or parentheses.
pub open spec fn ends_path_at(t: Seq<char>, k: int) -> bool {
    has_ci_at(t, k, md_suffix()) && ({
        let rest = t.skip(k + 3);
        let tr = trim_start(rest);
        rest.len() == 0 || rest[0] == '#' || rest[0] == '?' || tr.len() == 0 || tr[0] == '"' || tr[0]
            == '\'' || tr[0] == '('
    })
}

/// Distance from `q` to the first place at or after `q` where a `.md` ends the path.
pub open spec fn find_path_end(t: Seq<char>, q: int) -> Option<nat>
    decreases t.len() - q,
{
    if q < 0 || q >= t.len() {
        None
    } else if ends_path_at(t, q) {
        Some(0)
    } else {
        shift(find_path_end(t, q + 1), 1)
    }
}

/// The path part of a markdown href, up to its `.md`, in angle brackets or bare.
pub open spec fn href_body(t: Seq<char>) -> Option<Seq<char>> {
    if t.len() > 0 && t[0] == '<' {
        match find_off(t, 0, '>') {
            Some(c) => if c >= 1 {
                Some(trim(t.subrange(1, c as int)))
            } else {
                None
            },
            None => None,
        }
    } else {
        match find_path_end(t, 0) {
            Some(k) => Some(t.take((k + 3) as int)),
            None => None,
        }
    }
}

/// The note that a markdown href names, before resolution: a path ending in `.md`,
/// with fragment and query cut off and escapes decoded; `None` for a web address or
/// anything else.
pub open spec fn md_target_text(raw: Seq<char>) -> Option<Seq<char>> {
    let t = trim(raw);
    if t.len() == 0 {
        None
    } else {
        match href_body(t) {
            Some(h) => {
                let d = utf8_lossy(pct_decode(trim(before_char(before_char(h, '#'), '?'))));
                if is_external(h) || !ends_with_md(d) || d.len() == 0 {
                    None
                } else {
                    Some(d)
                }
            },
            None => None,
        }
    }
}

/// Where a wiki target leads from the note `source`: from the vault root after a
/// leading `/`, else from the note's folder; `.md` is added when missing.
pub open spec fn wiki_resolve_in_dir(source: Seq<char>, raw: Seq<char>) -> Option<Seq<char>> {
    if raw.len() > 0 && raw[0] == '/' {
        if strip_slashes(raw).len() == 0 {
            None
        } else {
            resolve_relative(Seq::empty(), with_md(strip_slashes(raw)))
        }
    } else {
        resolve_relative(parent_of(source), with_md(raw))
    }
}

/// The text in `s` between `a` and `b`, when that is a range of `s`.
pub open spec fn span_text(s: Seq<char>, a: usize, b: usize) -> Option<Seq<char>> {
    if a <= b <= s.len() {
        Some(s.subrange(a as int, b as int))
    } else {
        None
    }
}

/// The note that a link's URL names, before resolution: trimmed, percent-decoded,
/// cut at `#` and `?`, and ending in `.md`; `None` for web addresses and other files.
pub open spec fn link_target_text(url: Seq<char>) -> Option<Seq<char>> {
    let t = trim(url);
    let d = trim(before_char(before_char(utf8_lossy(pct_decode(t)), '#'), '?'));
    if t.len() == 0 || is_external(t) || d.len() == 0 || !ends_with_md(d) {
        None
    } else {
        Some(d)
    }
}

/// The vault path that a link leads to, seen from the note `source`.
pub open spec fn target_of(l: LinkView, source: Seq<char>) -> Option<Seq<char>> {
    if l.0 {
        match wiki_target_text(l.2) {
            Some(t) => wiki_resolve_in_dir(source, t),
            None => None,
        }
    } else {
        match link_target_text(l.2) {
            Some(t) => resolve_relative(parent_of(source), t),
            None => None,
        }
    }
}

/// The targets, in order, of the links that are wiki links (or, with `wiki` false,
/// markdown links) and not embeds, skipping those that lead nowhere.
pub open spec fn collected(links: Seq<LinkView>, source: Seq<char>, wiki: bool) -> Seq<Seq<char>>
    decreases links.len(),
{
    if links.len() == 0 {
        Seq::empty()
    } else {
        let prev = collected(links.drop_last(), source, wiki);
        let l = links.last();
        if l.0 == wiki && !l.1 {
            match target_of(l, source) {
                Some(t) => prev.push(t),
                None => prev,
            }
        } else {
            prev
        }
    }
}

/// A bare link destination that holds a space, and so is no CommonMark destination,
/// still names a note when it ends in `.md`; such a destination is put in angle
/// brackets before parsing.
pub open spec fn wraps(inner: Seq<char>) -> bool {
    inner.len() > 0 && inner[0] != '<' && inner.contains(' ') && !inner.contains('\n')
        && !inner.contains('<') && !inner.contains('>') && ends_with_md(inner)
}

/// `s` from position `p` on, with each `](dest)` whose `dest` `wraps` written
/// `](<dest>)`.
pub open spec fn spaced_from(s: Seq<char>, p: int) -> Seq<char>
    decreases s.len() - p,
{
    if p < 0 || p >= s.len() {
        Seq::empty()
    } else if p + 1 < s.len() && s[p] == ']' && s[p + 1] == '(' {
        match find_off(s, p + 2, ')') {
            Some(d) => if p + 3 + d <= s.len() && wraps(s.subrange(p + 2, p + 2 + d)) {
                seq![']', '(', '<'] + s.subrange(p + 2, p + 2 + d) + seq!['>', ')'] + spaced_from(
                    s,
                    p + 3 + d,
                )
            } else {
                seq![']'] + spaced_from(s, p + 1)
            },
            None => seq![']'] + spaced_from(s, p + 1),
        }
    } else {
        seq![s[p]] + spaced_from(s, p + 1)
    }
}

/// The body as it is handed to the parser.
pub open spec fn spaced_destinations(s: Seq<char>) -> Seq<char> {
    spaced_from(s, 0)
}

/// The markdown-link targets of a body.
pub open spec fn gfm_targets(s: Seq<char>, source: Seq<char>) -> Seq<Seq<char>> {
    collected(links_of(spaced_destinations(s)), source, false)
}

/// The wiki-link targets of a body.
pub open spec fn wiki_targets(s: Seq<char>, source: Seq<char>) -> Seq<Seq<char>> {
    collected(links_of(spaced_destinations(s)), source, true)
}

/// The texts of a sequence of strings.
pub open spec fn strs(v: Seq<String>) -> Seq<Seq<char>> {
    v.map_values(|x: String| x@)
}

pub(crate) fn before_char_chars(v: &Vec<char>, c: char) -> (r: Vec<char>)
    ensures
        r@ == before_char(v@, c),
{
    match find_char(v, 0, c) {
        Some(j) => slice_chars(v, 0, j),
        None => v.clone(),
    }
}

pub(crate) fn strip_slashes_chars(v: &Vec<char>) -> (r: Vec<char>)
    ensures
        r@ == strip_slashes(v@),
{
    let mut i: usize = 0;
    assert(v@.skip(0) =~= v@);
    while i < v.len() && v[i] == '/'
        invariant
            i <= v.len(),
            strip_slashes(v@.skip(i as int)) == strip_slashes(v@),
        decreases v.len() - i,
    {
        assert(v@.skip(i as int).drop_first() =~= v@.skip(i + 1));
        i += 1;
    }
    let r = slice_chars(v, i, v.len());
    assert(r@ =~= v@.skip(i as int));
    r
}

fn trim_start_chars(v: &Vec<char>) -> (r: Vec<char>)
    ensures
        r@ == trim_start(v@),
{
    let mut i: usize = 0;
    assert(v@.skip(0) =~= v@);
    while i < v.len() && is_whitespace_char(v[i])
        invariant
            i <= v.len(),
            trim_start_index(v@) == i + trim_start_index(v@.skip(i as int)),
        decreases v.len() - i,
    {
        assert(v@.skip(i as int).drop_first() =~= v@.skip(i + 1));
        i += 1;
    }
    let r = slice_chars(v, i, v.len());
    assert(r@ =~= v@.skip(i as int));
    r
}

/// The target named inside a wiki link (`target#heading|alias`), before resolution.
pub fn wiki_target_chars(raw: &Vec<char>) -> (r: Option<Vec<char>>)
    ensures
        r matches Some(x) ==> wiki_target_text(raw@) == Some(x@),
        r is None ==> wiki_target_text(raw@) is None,
{
    let t = trim_chars(raw);
    if t.len() == 0 {
        return None;
    }
    let a = trim_chars(&before_char_chars(&t, '|'));
    if a.len() == 0 {
        return None;
    }
    let f = trim_chars(&before_char_chars(&a, '#'));
    if f.len() == 0 {
        return None;
    }
    let d = decode_percent_chars(&f);
    if d.len() == 0 || is_external_chars(&d) {
        return None;
    }
    Some(d)
}

/// The target named inside a wiki link: the text before `|` and `#`, trimmed and
/// percent-decoded; `None` when that is empty or a web address.
pub fn parse_wiki_link_target(raw_target: &str) -> (r: Option<String>)
    ensures
        r matches Some(x) ==> wiki_target_text(raw_target@) == Some(x@),
        r is None ==> wiki_target_text(raw_target@) is None,
{
    match wiki_target_chars(&chars_of(raw_target)) {
        Some(d) => Some(string_of(&d)),
        None => None,
    }
}

fn ends_path_at_exec(t: &Vec<char>, k: usize, md: &Vec<char>) -> (r: bool)
    requires
        md@ == md_suffix(),
    ensures
        r == ends_path_at(t@, k as int),
{
    if !matches_ci_at(t, k, md) {
        return false;
    }
    let n = t.len();
    assert(k as int + 3 <= n);
    let rest = slice_chars(t, k + 3, n);
    assert(rest@ =~= t@.skip(k + 3));
    if rest.len() == 0 || rest[0] == '#' || rest[0] == '?' {
        return true;
    }
    let tr = trim_start_chars(&rest);
    tr.len() == 0 || tr[0] == '"' || tr[0] == '\'' || tr[0] == '('
}

fn find_path_end_exec(t: &Vec<char>) -> (r: Option<usize>)
    ensures
        match r {
            Some(k) => k < t.len() && find_path_end(t@, 0) == Some(k as nat),
            None => find_path_end(t@, 0) is None,
        },
{
    let md: Vec<char> = vec!['.', 'm', 'd'];
    let mut j: usize = 0;
    while j < t.len()
        invariant
            j <= t.len(),
            md@ == md_suffix(),
            find_path_end(t@, 0) == shift(find_path_end(t@, j as int), j as nat),
        decreases t.len() - j,
    {
        if ends_path_at_exec(t, j, &md) {
            return Some(j);
        }
        j += 1;
    }
    None
}

fn href_body_chars(t: &Vec<char>) -> (r: Option<Vec<char>>)
    ensures
        r matches Some(x) ==> href_body(t@) == Some(x@),
        r is None ==> href_body(t@) is None,
{
    if t.len() > 0 && t[0] == '<' {
        match find_char(t, 0, '>') {
            Some(c) => if c >= 1 {
                Some(trim_chars(&slice_chars(t, 1, c)))
            } else {
                None
            },
            None => None,
        }
    } else {
        match find_path_end_exec(t) {
            Some(k) => {
                assert(ends_path_at(t@, k as int)) by {
                    lemma_path_end_found(t@, 0);
                }
                let r = slice_chars(t, 0, k + 3);
                assert(r@ =~= t@.take(k + 3));
                Some(r)
            },
            None => None,
        }
    }
}

proof fn lemma_path_end_found(t: Seq<char>, q: int)
    requires
        find_path_end(t, q) is Some,
    ensures
        ends_path_at(t, q + find_path_end(t, q)->0),
    decreases t.len() - q,
{
    if q >= 0 && q < t.len() && !ends_path_at(t, q) {
        lemma_path_end_found(t, q + 1);
    }
}

/// The target of a markdown href, before resolution.
pub fn md_target_chars(raw: &Vec<char>) -> (r: Option<Vec<char>>)
    ensures
        r matches Some(x) ==> md_target_text(raw@) == Some(x@),
        r is None ==> md_target_text(raw@) is None,
{
    let t = trim_chars(raw);
    if t.len() == 0 {
        return None;
    }
    match href_body_chars(&t) {
        Some(h) => {
            if is_external_chars(&h) {
                return None;
            }
            let cut = before_char_chars(&before_char_chars(&h, '#'), '?');
            let d = decode_percent_chars(&trim_chars(&cut));
            if !ends_with_md_chars(&d) || d.len() == 0 {
                None
            } else {
                Some(d)
            }
        },
        None => None,
    }
}

/// The note path that a markdown href names, before resolution: up to its `.md`
/// (or inside `<…>`), without fragment and query, percent-decoded. `None` for web
/// addresses and for hrefs that do not name a `.md` file.
pub fn parse_markdown_href_target(raw_href: &str) -> (r: Option<String>)
    ensures
        r matches Some(x) ==> md_target_text(raw_href@) == Some(x@),
        r is None ==> md_target_text(raw_href@) is None,
{
    match md_target_chars(&chars_of(raw_href)) {
        Some(d) => Some(string_of(&d)),
        None => None,
    }
}

fn wiki_resolve_in_dir_chars(source: &Vec<char>, raw: &Vec<char>) -> (r: Option<Vec<char>>)
    ensures
        r matches Some(x) ==> wiki_resolve_in_dir(source@, raw@) == Some(x@),
        r is None ==> wiki_resolve_in_dir(source@, raw@) is None,
{
    if raw.len() > 0 && raw[0] == '/' {
        let stripped = strip_slashes_chars(raw);
        if stripped.len() == 0 {
            return None;
        }
        let empty: Vec<char> = Vec::new();
        assert(empty@ =~= Seq::<char>::empty());
        resolve_relative_chars(&empty, &with_md_chars(&stripped))
    } else {
        let dir = parent_chars(source);
        resolve_relative_chars(&dir, &with_md_chars(raw))
    }
}

fn link_target_chars(url: &Vec<char>) -> (r: Option<Vec<char>>)
    ensures
        r matches Some(x) ==> link_target_text(url@) == Some(x@),
        r is None ==> link_target_text(url@) is None,
{
    let t = trim_chars(url);
    if t.len() == 0 || is_external_chars(&t) {
        return None;
    }
    let d = trim_chars(&before_char_chars(&before_char_chars(&decode_percent_chars(&t), '#'), '?'));
    if d.len() == 0 || !ends_with_md_chars(&d) {
        None
    } else {
        Some(d)
    }
}

/// The note that the URL of a markdown link names, before resolution: trimmed,
/// percent-decoded, without fragment and query, and ending in `.md`.
pub fn parse_internal_markdown_target(raw_href: &str) -> (r: Option<String>)
    ensures
        r matches Some(x) ==> link_target_text(raw_href@) == Some(x@),
        r is None ==> link_target_text(raw_href@) is None,
{
    match link_target_chars(&chars_of(raw_href)) {
        Some(d) => Some(string_of(&d)),
        None => None,
    }
}

fn target_of_exec(l: &LinkRecord, source: &Vec<char>) -> (r: Option<Vec<char>>)
    ensures
        r matches Some(x) ==> target_of((l.wiki, l.embed, l.url@, l.label@, l.span), source@) == Some(x@),
        r is None ==> target_of((l.wiki, l.embed, l.url@, l.label@, l.span), source@) is None,
{
    if l.wiki {
        match wiki_target_chars(&l.url) {
            Some(t) => wiki_resolve_in_dir_chars(source, &t),
            None => None,
        }
    } else {
        match link_target_chars(&l.url) {
            Some(t) => resolve_relative_chars(&parent_chars(source), &t),
            None => None,
        }
    }
}

fn collect_targets(links: &Vec<LinkRecord>, source: &Vec<char>, wiki: bool) -> (r: Vec<String>)
    ensures
        strs(r@) == collected(record_views(links@), source@, wiki),
{
    let ghost lv = record_views(links@);
    let mut out: Vec<String> = Vec::new();
    let mut i: usize = 0;
    assert(lv.take(0) =~= Seq::<LinkView>::empty());
    assert(strs(out@) =~= Seq::<Seq<char>>::empty());
    while i < links.len()
        invariant
            i <= links.len(),
            lv == record_views(links@),
            strs(out@) == collected(lv.take(i as int), source@, wiki),
        decreases links.len() - i,
    {
        let l = &links[i];
        assert(lv.take(i + 1).drop_last() =~= lv.take(i as int));
        assert(lv.take(i + 1).last() == (l.wiki, l.embed, l.url@, l.label@, l.span));
        if l.wiki == wiki && !l.embed {
            match target_of_exec(l, source) {
                Some(t) => {
                    let ghost before = out@;
                    out.push(string_of(&t));
                    assert(strs(out@) =~= strs(before).push(t@));
                },
                None => {},
            }
        }
        i += 1;
    }
    assert(lv.take(i as int) =~= lv);
    out
}

/// The notes that the markdown links of `markdown` lead to, in order, resolved from
/// the folder of `source_path`. Images and web addresses are left out.
pub fn gfm_link_targets(markdown: &str, source_path: &str) -> (r: Vec<String>)
    ensures
        strs(r@) == gfm_targets(markdown@, source_path@),
{
    let prepared = spaced_destinations_str(markdown);
    collect_targets(&link_records(prepared.as_str()), &chars_of(source_path), false)
}

/// The notes that the wiki links of `markdown` lead to, in order. Embeds (`![[…]]`)
/// are left out; a target starting with `/` is taken from the vault root.
pub fn wiki_link_targets(markdown: &str, source_path: &str) -> (r: Vec<String>)
    ensures
        strs(r@) == wiki_targets(markdown@, source_path@),
{
    let prepared = spaced_destinations_str(markdown);
    collect_targets(&link_records(prepared.as_str()), &chars_of(source_path), true)
}

fn wraps_exec(v: &Vec<char>, a: usize, b: usize) -> (r: bool)
    requires
        a <= b <= v.len(),
    ensures
        r == wraps(v@.subrange(a as int, b as int)),
{
    let inner = slice_chars(v, a, b);
    if inner.len() == 0 || inner[0] == '<' || !ends_with_md_chars(&inner) {
        return false;
    }
    let mut space = false;
    let mut k: usize = 0;
    while k < inner.len()
        invariant
            k <= inner.len(),
            inner@ == v@.subrange(a as int, b as int),
            inner@.len() > 0 && inner@[0] != '<' && ends_with_md(inner@),
            space == inner@.take(k as int).contains(' '),
            !inner@.take(k as int).contains('\n'),
            !inner@.take(k as int).contains('<'),
            !inner@.take(k as int).contains('>'),
        decreases inner.len() - k,
    {
        let c = inner[k];
        let ghost t = inner@.take(k as int);
        assert(inner@.take(k + 1) =~= t.push(c));
        if c == '\n' || c == '<' || c == '>' {
            assert(inner@[k as int] == c);
            assert(inner@.contains(c));
            return false;
        }
        proof {
            assert forall|x: char| #[trigger] t.push(c).contains(x) <==> (t.contains(x) || x == c) by {
                if t.push(c).contains(x) {
                    let j = choose|j: int| 0 <= j < t.push(c).len() && t.push(c)[j] == x;
                    if j < t.len() {
                        assert(t[j] == x);
                    }
                }
                if t.contains(x) {
                    let j = choose|j: int| 0 <= j < t.len() && t[j] == x;
                    assert(t.push(c)[j] == x);
                }
                if x == c {
                    assert(t.push(c)[t.len() as int] == x);
                }
            }
        }
        if c == ' ' {
            space = true;
        }
        k += 1;
    }
    assert(inner@.take(k as int) =~= inner@);
    space
}

/// The body as it is handed to the parser: each bare `](dest)` whose `dest` holds a
/// space and ends in `.md` is written `](<dest>)`.
pub fn spaced_destinations_str(markdown: &str) -> (r: String)
    ensures
        r@ == spaced_destinations(markdown@),
{
    let v = chars_of(markdown);
    let mut out: Vec<char> = Vec::new();
    let mut p: usize = 0;
    while p < v.len()
        invariant
            p <= v.len(),
            v@ == markdown@,
            out@ + spaced_from(v@, p as int) == spaced_from(v@, 0),
        decreases v.len() - p,
    {
        let ghost before = out@;
        if p + 1 < v.len() && v[p] == ']' && v[p + 1] == '(' {
            match find_char(&v, p + 2, ')') {
                Some(j) => {
                    if wraps_exec(&v, p + 2, j) {
                        out.push(']');
                        out.push('(');
                        out.push('<');
                        extend_chars(&mut out, &slice_chars(&v, p + 2, j));
                        out.push('>');
                        out.push(')');
                        assert(out@ + spaced_from(v@, j + 1) =~= before + spaced_from(v@, p as int));
                        p = j + 1;
                        continue;
                    }
                },
                None => {},
            }
            out.push(']');
            assert(out@ + spaced_from(v@, p + 1) =~= before + spaced_from(v@, p as int));
            p += 1;
        } else {
            out.push(v[p]);
            assert(out@ + spaced_from(v@, p + 1) =~= before + spaced_from(v@, p as int));
            p += 1;
        }
    }
    assert(out@ + Seq::<char>::empty() =~= out@);
    string_of(&out)
}

/// The markdown-link targets followed by the wiki-link targets.
pub fn internal_link_targets(markdown: &str, source_path: &str) -> (r: Vec<String>)
    ensures
        strs(r@) == gfm_targets(markdown@, source_path@) + wiki_targets(markdown@, source_path@),
{
    let mut out = gfm_link_targets(markdown, source_path);
    let w = wiki_link_targets(markdown, source_path);
    let ghost a = out@;
    let mut i: usize = 0;
    while i < w.len()
        invariant
            i <= w.len(),
            out@ == a + w@.take(i as int),
        decreases w.len() - i,
    {
        out.push(w[i].clone());
        i += 1;
        assert(out@ =~= a + w@.take(i as int));
    }
    assert(w@.take(i as int) =~= w@);
    assert(strs(a + w@) =~= strs(a) + strs(w@));
    out
}


/// A link out of the vault: its address and the words it shows.
#[derive(Debug, Clone, PartialEq, Eq)]
pub struct ExternalLink {
    pub url: String,
    pub text: String,
}

/// What one note body links to: vault notes, first occurrence first, and web pages.
#[derive(Debug, Clone, PartialEq, Eq)]
pub struct LocalLinksSnapshot {
    pub outlink_paths: Vec<String>,
    pub external_links: Vec<ExternalLink>,
}

/// `s` with later repeats removed; first occurrences keep their order.
pub open spec fn dedupe(s: Seq<Seq<char>>) -> Seq<Seq<char>>
    decreases s.len(),
{
    if s.len() == 0 {
        s
    } else {
        let d = dedupe(s.drop_last());
        if d.contains(s.last()) {
            d
        } else {
            d.push(s.last())
        }
    }
}

/// `s` without the entries equal to `x`.
pub open spec fn without(s: Seq<Seq<char>>, x: Seq<char>) -> Seq<Seq<char>>
    decreases s.len(),
{
    if s.len() == 0 {
        s
    } else if s.last() == x {
        without(s.drop_last(), x)
    } else {
        without(s.drop_last(), x).push(s.last())
    }
}

/// The web link of a link record, as (address, shown text): the label's text, or the
/// address when the label shows nothing.
pub open spec fn external_of(l: LinkView) -> Option<(Seq<char>, Seq<char>)> {
    if !l.0 && is_external(l.2) {
        Some((l.2, if l.3.len() == 0 { l.2 } else { l.3 }))
    } else {
        None
    }
}

/// The web links among `links`, in order.
pub open spec fn externals(links: Seq<LinkView>) -> Seq<(Seq<char>, Seq<char>)>
    decreases links.len(),
{
    if links.len() == 0 {
        Seq::empty()
    } else {
        match external_of(links.last()) {
            Some(e) => externals(links.drop_last()).push(e),
            None => externals(links.drop_last()),
        }
    }
}

/// Whether some entry of `s` has the address `url`.
pub open spec fn has_url(s: Seq<(Seq<char>, Seq<char>)>, url: Seq<char>) -> bool {
    exists|i: int| 0 <= i < s.len() && (#[trigger] s[i]).0 == url
}

/// `s` keeping only the first entry for each address.
pub open spec fn dedupe_urls(s: Seq<(Seq<char>, Seq<char>)>) -> Seq<(Seq<char>, Seq<char>)>
    decreases s.len(),
{
    if s.len() == 0 {
        s
    } else {
        let d = dedupe_urls(s.drop_last());
        if has_url(d, s.last().0) {
            d
        } else {
            d.push(s.last())
        }
    }
}

/// The (address, text) pairs of a list of web links.
pub open spec fn link_pairs(v: Seq<ExternalLink>) -> Seq<(Seq<char>, Seq<char>)> {
    v.map_values(|e: ExternalLink| (e.url@, e.text@))
}

fn contains_string(v: &Vec<String>, x: &String) -> (r: bool)
    ensures
        r == strs(v@).contains(x@),
{
    let mut i: usize = 0;
    while i < v.len()
        invariant
            i <= v.len(),
            forall|j: int| 0 <= j < i ==> v@[j]@ != x@,
        decreases v.len() - i,
    {
        if v[i] == *x {
            assert(strs(v@)[i as int] == x@);
            return true;
        }
        i += 1;
    }
    assert forall|j: int| 0 <= j < strs(v@).len() implies strs(v@)[j] != x@ by {
        assert(strs(v@)[j] == v@[j]@);
    }
    false
}

/// Keeps the first occurrence of each value, in order.
pub fn dedupe_preserve_order(values: Vec<String>) -> (r: Vec<String>)
    ensures
        strs(r@) == dedupe(strs(values@)),
{
    let mut out: Vec<String> = Vec::new();
    let mut i: usize = 0;
    assert(strs(values@).take(0) =~= Seq::<Seq<char>>::empty());
    assert(strs(out@) =~= Seq::<Seq<char>>::empty());
    while i < values.len()
        invariant
            i <= values.len(),
            strs(out@) == dedupe(strs(values@).take(i as int)),
        decreases values.len() - i,
    {
        assert(strs(values@).take(i + 1).drop_last() =~= strs(values@).take(i as int));
        assert(strs(values@).take(i + 1).last() == values@[i as int]@);
        if !contains_string(&out, &values[i]) {
            let ghost before = out@;
            out.push(values[i].clone());
            assert(strs(out@) =~= strs(before).push(values@[i as int]@));
        }
        i += 1;
    }
    assert(strs(values@).take(i as int) =~= strs(values@));
    out
}

fn has_url_exec(v: &Vec<ExternalLink>, url: &String) -> (r: bool)
    ensures
        r == has_url(link_pairs(v@), url@),
{
    let mut i: usize = 0;
    while i < v.len()
        invariant
            i <= v.len(),
            forall|j: int| 0 <= j < i ==> v@[j].url@ != url@,
        decreases v.len() - i,
    {
        if v[i].url == *url {
            assert(link_pairs(v@)[i as int].0 == url@);
            return true;
        }
        i += 1;
    }
    assert forall|j: int| 0 <= j < link_pairs(v@).len() implies (#[trigger] link_pairs(v@)[j]).0 != url@ by {
        assert(link_pairs(v@)[j].0 == v@[j].url@);
    }
    false
}

fn clone_link(e: &ExternalLink) -> (r: ExternalLink)
    ensures
        r.url@ == e.url@,
        r.text@ == e.text@,
{
    ExternalLink { url: e.url.clone(), text: e.text.clone() }
}

/// Keeps the first web link for each address, in order.
pub fn dedupe_external_links(values: Vec<ExternalLink>) -> (r: Vec<ExternalLink>)
    ensures
        link_pairs(r@) == dedupe_urls(link_pairs(values@)),
{
    let mut out: Vec<ExternalLink> = Vec::new();
    let mut i: usize = 0;
    assert(link_pairs(values@).take(0) =~= Seq::<(Seq<char>, Seq<char>)>::empty());
    assert(link_pairs(out@) =~= Seq::<(Seq<char>, Seq<char>)>::empty());
    while i < values.len()
        invariant
            i <= values.len(),
            link_pairs(out@) == dedupe_urls(link_pairs(values@).take(i as int)),
        decreases values.len() - i,
    {
        assert(link_pairs(values@).take(i + 1).drop_last() =~= link_pairs(values@).take(i as int));
        assert(link_pairs(values@).take(i + 1).last() == (values@[i as int].url@, values@[i as int].text@));
        if !has_url_exec(&out, &values[i].url) {
            let ghost before = out@;
            out.push(clone_link(&values[i]));
            assert(link_pairs(out@) =~= link_pairs(before).push((values@[i as int].url@, values@[i as int].text@)));
        }
        i += 1;
    }
    assert(link_pairs(values@).take(i as int) =~= link_pairs(values@));
    out
}

fn collect_externals(links: &Vec<LinkRecord>) -> (r: Vec<ExternalLink>)
    ensures
        link_pairs(r@) == externals(record_views(links@)),
{
    let ghost lv = record_views(links@);
    let mut out: Vec<ExternalLink> = Vec::new();
    let mut i: usize = 0;
    assert(lv.take(0) =~= Seq::<LinkView>::empty());
    assert(link_pairs(out@) =~= Seq::<(Seq<char>, Seq<char>)>::empty());
    while i < links.len()
        invariant
            i <= links.len(),
            lv == record_views(links@),
            link_pairs(out@) == externals(lv.take(i as int)),
        decreases links.len() - i,
    {
        let l = &links[i];
        assert(lv.take(i + 1).drop_last() =~= lv.take(i as int));
        assert(lv.take(i + 1).last() == (l.wiki, l.embed, l.url@, l.label@, l.span));
        if !l.wiki && is_external_chars(&l.url) {
            let text = if l.label.len() == 0 {
                string_of(&l.url)
            } else {
                string_of(&l.label)
            };
            let ghost before = out@;
            out.push(ExternalLink { url: string_of(&l.url), text });
            assert(link_pairs(out@) =~= link_pairs(before).push(
                external_of(lv[i as int])->0,
            ));
        }
        i += 1;
    }
    assert(lv.take(i as int) =~= lv);
    out
}

fn without_string(values: &Vec<String>, x: &String) -> (r: Vec<String>)
    ensures
        strs(r@) == without(strs(values@), x@),
{
    let mut out: Vec<String> = Vec::new();
    let mut i: usize = 0;
    assert(strs(values@).take(0) =~= Seq::<Seq<char>>::empty());
    assert(strs(out@) =~= Seq::<Seq<char>>::empty());
    while i < values.len()
        invariant
            i <= values.len(),
            strs(out@) == without(strs(values@).take(i as int), x@),
        decreases values.len() - i,
    {
        assert(strs(values@).take(i + 1).drop_last() =~= strs(values@).take(i as int));
        assert(strs(values@).take(i + 1).last() == values@[i as int]@);
        if values[i] != *x {
            let ghost before = out@;
            out.push(values[i].clone());
            assert(strs(out@) =~= strs(before).push(values@[i as int]@));
        }
        i += 1;
    }
    assert(strs(values@).take(i as int) =~= strs(values@));
    out
}

/// The outlinks of a body as the snapshot lists them: every target once, first
/// occurrence first, the note itself left out.
pub open spec fn snapshot_paths(s: Seq<char>, source: Seq<char>) -> Seq<Seq<char>> {
    dedupe(without(gfm_targets(s, source) + wiki_targets(s, source), source))
}

/// The links of one note body: its vault outlinks (markdown targets, then wiki
/// targets; each once, the note itself left out) and its web links (each address once).
pub fn extract_local_links_snapshot(markdown: &str, source_path: &str) -> (r: LocalLinksSnapshot)
    ensures
        strs(r.outlink_paths@) == snapshot_paths(markdown@, source_path@),
        link_pairs(r.external_links@) == dedupe_urls(externals(links_of(spaced_destinations(markdown@)))),
{
    let combined = internal_link_targets(markdown, source_path);
    let src = String::from_str(source_path);
    let filtered = without_string(&combined, &src);
    let outlink_paths = dedupe_preserve_order(filtered);
    let prepared = spaced_destinations_str(markdown);
    let external_links = dedupe_external_links(collect_externals(&link_records(prepared.as_str())));
    LocalLinksSnapshot { outlink_paths, external_links }
}


proof fn lemma_without_excludes(s: Seq<Seq<char>>, x: Seq<char>)
    ensures
        !without(s, x).contains(x),
        forall|y: Seq<char>| #[trigger] without(s, x).contains(y) ==> s.contains(y),
    decreases s.len(),
{
    if s.len() > 0 {
        lemma_without_excludes(s.drop_last(), x);
        let w0 = without(s.drop_last(), x);
        assert forall|y: Seq<char>| #[trigger] without(s, x).contains(y) implies s.contains(y) by {
            if w0.contains(y) {
                let k = choose|k: int| 0 <= k < s.drop_last().len() && s.drop_last()[k] == y;
                assert(s[k] == y);
            } else {
                let k = choose|k: int| 0 <= k < without(s, x).len() && without(s, x)[k] == y;
                if k < w0.len() {
                    assert(w0[k] == y);
                }
                assert(s[s.len() - 1] == y);
            }
        }
        if s.last() != x {
            if without(s, x).contains(x) {
                let k = choose|k: int| 0 <= k < without(s, x).len() && without(s, x)[k] == x;
                if k < w0.len() {
                    assert(w0[k] == x);
                }
            }
        }
    }
}

proof fn lemma_dedupe_subset(s: Seq<Seq<char>>)
    ensures
        forall|y: Seq<char>| #[trigger] dedupe(s).contains(y) ==> s.contains(y),
        forall|i: int, j: int| 0 <= i < j < dedupe(s).len() ==> dedupe(s)[i] != dedupe(s)[j],
    decreases s.len(),
{
    if s.len() > 0 {
        lemma_dedupe_subset(s.drop_last());
        let d0 = dedupe(s.drop_last());
        assert forall|y: Seq<char>| #[trigger] dedupe(s).contains(y) implies s.contains(y) by {
            let k = choose|k: int| 0 <= k < dedupe(s).len() && dedupe(s)[k] == y;
            if k < d0.len() {
                assert(d0[k] == y);
                assert(d0.contains(y));
                let m = choose|m: int| 0 <= m < s.drop_last().len() && s.drop_last()[m] == y;
                assert(s[m] == y);
            } else {
                assert(s[s.len() - 1] == y);
            }
        }
        if !d0.contains(s.last()) {
            assert forall|i: int, j: int| 0 <= i < j < dedupe(s).len() implies dedupe(s)[i] != dedupe(s)[j] by {
                if j == d0.len() {
                    assert(dedupe(s)[i] == d0[i]);
                }
            }
        }
    }
}

/// A note never links to itself: the outlinks stored for a note leave the note out,
/// and name each target once.
pub proof fn lemma_no_self_outlink(s: Seq<char>, source: Seq<char>)
    ensures
        !snapshot_paths(s, source).contains(source),
        forall|i: int, j: int|
            0 <= i < j < snapshot_paths(s, source).len() ==> snapshot_paths(s, source)[i]
                != snapshot_paths(s, source)[j],
{
    let all = gfm_targets(s, source) + wiki_targets(s, source);
    lemma_without_excludes(all, source);
    lemma_dedupe_subset(without(all, source));
}

/// The targets to store as the outlinks of the note at `source_path`: every note its
/// body links to, once each, never the note itself.
pub fn outlink_targets(markdown: &str, source_path: &str) -> (r: Vec<String>)
    ensures
        strs(r@) == snapshot_paths(markdown@, source_path@),
        !strs(r@).contains(source_path@),
{
    proof {
        lemma_no_self_outlink(markdown@, source_path@);
    }
    let combined = internal_link_targets(markdown, source_path);
    let src = String::from_str(source_path);
    dedupe_preserve_order(without_string(&combined, &src))
}

} // verus!
