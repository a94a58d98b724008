//! Note bodies as the CommonMark parser (with GFM autolinks and wiki links) reads
//! them: its nodes in document order, and the link records drawn from them.
use vstd::prelude::*;
use comrak::nodes::NodeValue as V;
use crate::text::{chars_of, slice_chars, trim, trim_chars, extend_chars};
use crate::scan::{LinkSpan, find_off, find_char, backslashes_before, backslashes_before_exec, wiki_at, md_at, wiki_at_exec, md_at_exec};

verus! {

/// What a parsed node is, as far as links care.
#[derive(Clone, Copy, Debug, PartialEq, Eq, Structural)]
pub enum NodeKind {
    Text,
    Code,
    Break,
    Link,
    WikiLink,
    Other,
}

/// Where a parsed node sits: its depth below the document, and its first and last
/// character as 1-based line and column.
#[derive(Clone, Copy, Debug, PartialEq, Eq)]
pub struct NodePos {
    pub depth: usize,
    pub start_line: usize,
    pub start_col: usize,
    pub end_line: usize,
    pub end_col: usize,
}

/// The nodes that comrak parses from a body, in document order: each node's kind
/// and its text (for a link, its URL).
pub uninterp spec fn md_nodes(s: Seq<char>) -> Seq<(NodeKind, Seq<char>)>;

/// The positions of the same nodes, in the same order.
pub uninterp spec fn md_positions(s: Seq<char>) -> Seq<NodePos>;

pub open spec fn node_views(v: Seq<(NodeKind, String)>) -> Seq<(NodeKind, Seq<char>)> {
    v.map_values(|n: (NodeKind, String)| (n.0, n.1@))
}

/// Relies on `comrak::parse_document` with autolinks and wiki links, walked by
/// `descendants`: each node's kind, and the text of a text node, the literal of
/// inline code, or the URL of a link or wiki link.
#[verifier::external_body]
fn parse_nodes(markdown: &str) -> (r: Vec<(NodeKind, String)>)
    ensures
        node_views(r@) == md_nodes(markdown@),
{
    let mut options = comrak::Options::default();
    options.extension.autolink = true;
    options.extension.wikilinks_title_after_pipe = true;
    let arena = comrak::Arena::new();
    let root = comrak::parse_document(&arena, markdown, &options);
    root.descendants().map(|n| match &n.data.borrow().value {
        V::Text(t) => (NodeKind::Text, t.to_string()),
        V::Code(c) => (NodeKind::Code, c.literal.clone()),
        V::SoftBreak | V::LineBreak => (NodeKind::Break, String::new()),
        V::Link(l) => (NodeKind::Link, l.url.clone()),
        V::WikiLink(l) => (NodeKind::WikiLink, l.url.clone()),
        _ => (NodeKind::Other, String::new()),
    }).collect()
}

/// Relies on `comrak::parse_document` with the same options and walk, its
/// `sourcepos` counted in characters, and `ancestors` for the depth.
#[verifier::external_body]
fn parse_positions(markdown: &str) -> (r: Vec<NodePos>)
    ensures
        r@ == md_positions(markdown@),
{
    let mut options = comrak::Options::default();
    options.extension.autolink = true;
    options.extension.wikilinks_title_after_pipe = true;
    options.parse.sourcepos_chars = true;
    let arena = comrak::Arena::new();
    let root = comrak::parse_document(&arena, markdown, &options);
    root.descendants().map(|n| {
        let p = n.data.borrow().sourcepos;
        NodePos { depth: n.ancestors().count(), start_line: p.start.line, start_col: p.start.column, end_line: p.end.line, end_col: p.end.column }
    }).collect()
}

/// A link as the link logic reads it: wiki link or not, written as an embed
/// (`![[…]]` with the `!` not escaped), its URL, the text its label shows, and where
/// it stands in the body when that could be located.
#[derive(Clone, Debug, PartialEq, Eq)]
pub struct LinkRecord {
    pub wiki: bool,
    pub embed: bool,
    pub url: Vec<char>,
    pub label: Vec<char>,
    pub span: Option<LinkSpan>,
}

pub type LinkView = (bool, bool, Seq<char>, Seq<char>, Option<LinkSpan>);

pub open spec fn record_views(v: Seq<LinkRecord>) -> Seq<LinkView> {
    v.map_values(|r: LinkRecord| (r.wiki, r.embed, r.url@, r.label@, r.span))
}

/// The index just past the nodes below node `i`: the first later node that is not
/// deeper than it.
pub open spec fn subtree_end(ps: Seq<NodePos>, d: usize, j: int) -> int
    decreases ps.len() - j,
{
    if j < 0 || j >= ps.len() {
        ps.len() as int
    } else if ps[j].depth <= d {
        j
    } else {
        subtree_end(ps, d, j + 1)
    }
}

/// What a node adds to the text of a label.
pub open spec fn piece(n: (NodeKind, Seq<char>)) -> Seq<char> {
    match n.0 {
        NodeKind::Text | NodeKind::Code => n.1,
        NodeKind::Break => seq![' '],
        _ => Seq::empty(),
    }
}

/// The text of the nodes `from..to`, joined.
pub open spec fn plain_text(ns: Seq<(NodeKind, Seq<char>)>, from: int, to: int) -> Seq<char>
    decreases to - from,
{
    if to <= from || to > ns.len() || from < 0 {
        Seq::empty()
    } else {
        plain_text(ns, from, to - 1) + piece(ns[to - 1])
    }
}

/// Where line `line` (1-based) starts.
pub open spec fn line_start(s: Seq<char>, line: nat) -> Option<int>
    decreases line,
{
    if line == 0 {
        None
    } else if line == 1 {
        Some(0)
    } else {
        match line_start(s, (line - 1) as nat) {
            Some(k) => match find_off(s, k, '\n') {
                Some(d) => Some(k + d + 1),
                None => None,
            },
            None => None,
        }
    }
}

/// The index in `s` of line `line`, column `col` (both 1-based).
pub open spec fn offset_of(s: Seq<char>, line: nat, col: nat) -> Option<int> {
    match line_start(s, line) {
        Some(k) => if col >= 1 && k + col - 1 <= s.len() {
            Some(k + col - 1)
        } else {
            None
        },
        None => None,
    }
}

/// A wiki link at `p` is an embed when a `!` that no backslash escapes stands
/// right before it.
pub open spec fn is_embed_at(s: Seq<char>, p: NodePos) -> bool {
    match offset_of(s, p.start_line as nat, p.start_col as nat) {
        Some(a) => a >= 1 && a <= s.len() && s[a - 1] == '!' && backslashes_before(s, a - 1) % 2 == 0,
        None => false,
    }
}

/// The span of a link node in the body, when the link's own source, from its
/// first to its last character, reads as `[[…]]` or `[…](…)`.
pub open spec fn span_at(s: Seq<char>, p: NodePos, wiki: bool) -> Option<LinkSpan> {
    match (offset_of(s, p.start_line as nat, p.start_col as nat), offset_of(s, p.end_line as nat, p.end_col as nat)) {
        (Some(a), Some(z)) => {
            let found = if wiki { wiki_at(s, a, false, a) } else { md_at(s, a, false, a) };
            match found {
                Some(l) => if l.end as int == z + 1 { Some(l) } else { None },
                None => None,
            }
        },
        _ => None,
    }
}

/// The record of node `i` when it is a link or a wiki link.
pub open spec fn record_at(
    s: Seq<char>,
    ns: Seq<(NodeKind, Seq<char>)>,
    ps: Seq<NodePos>,
    i: int,
) -> Option<LinkView> {
    let k = ns[i].0;
    if k == NodeKind::Link || k == NodeKind::WikiLink {
        let wiki = k == NodeKind::WikiLink;
        let label = trim(plain_text(ns, i + 1, subtree_end(ps, ps[i].depth, i + 1)));
        Some((wiki, wiki && is_embed_at(s, ps[i]), ns[i].1, label, span_at(s, ps[i], wiki)))
    } else {
        None
    }
}

/// The records of the links among the first `n` nodes.
pub open spec fn records_upto(
    s: Seq<char>,
    ns: Seq<(NodeKind, Seq<char>)>,
    ps: Seq<NodePos>,
    n: int,
) -> Seq<LinkView>
    decreases n,
{
    if n <= 0 || n > ns.len() || ns.len() != ps.len() {
        Seq::empty()
    } else {
        match record_at(s, ns, ps, n - 1) {
            Some(r) => records_upto(s, ns, ps, n - 1).push(r),
            None => records_upto(s, ns, ps, n - 1),
        }
    }
}

/// The links of a body, in document order.
pub open spec fn links_of(s: Seq<char>) -> Seq<LinkView> {
    records_upto(s, md_nodes(s), md_positions(s), md_nodes(s).len() as int)
}

fn subtree_end_exec(ps: &Vec<NodePos>, d: usize, from: usize) -> (r: usize)
    requires
        from <= ps.len(),
    ensures
        r as int == subtree_end(ps@, d, from as int),
        from <= r <= ps.len(),
{
    let mut j = from;
    while j < ps.len() && ps[j].depth > d
        invariant
            from <= j <= ps.len(),
            subtree_end(ps@, d, from as int) == subtree_end(ps@, d, j as int),
        decreases ps.len() - j,
    {
        j += 1;
    }
    j
}

fn plain_text_exec(ns: &Vec<(NodeKind, Vec<char>)>, from: usize, to: usize) -> (r: Vec<char>)
    requires
        from <= to <= ns.len(),
    ensures
        r@ == plain_text(cviews(ns@), from as int, to as int),
{
    let mut out: Vec<char> = Vec::new();
    let mut k = from;
    assert(out@ =~= plain_text(cviews(ns@), from as int, from as int));
    while k < to
        invariant
            from <= k <= to <= ns.len(),
            out@ == plain_text(cviews(ns@), from as int, k as int),
        decreases to - k,
    {
        assert(cviews(ns@)[k as int] == (ns@[k as int].0, ns@[k as int].1@));
        match ns[k].0 {
            NodeKind::Text | NodeKind::Code => extend_chars(&mut out, &ns[k].1),
            NodeKind::Break => out.push(' '),
            _ => {},
        }
        k += 1;
        assert(out@ =~= plain_text(cviews(ns@), from as int, k as int));
    }
    out
}

pub open spec fn cviews(v: Seq<(NodeKind, Vec<char>)>) -> Seq<(NodeKind, Seq<char>)> {
    v.map_values(|n: (NodeKind, Vec<char>)| (n.0, n.1@))
}

fn line_start_exec(v: &Vec<char>, line: usize) -> (r: Option<usize>)
    ensures
        match r {
            Some(k) => line_start(v@, line as nat) == Some(k as int) && k <= v.len(),
            None => line_start(v@, line as nat) is None,
        },
{
    if line == 0 {
        return None;
    }
    let mut n: usize = 1;
    let mut k: usize = 0;
    while n < line
        invariant
            1 <= n <= line,
            k <= v.len(),
            line_start(v@, n as nat) == Some(k as int),
        decreases line - n,
    {
        match find_char(v, k, '\n') {
            Some(j) => {
                k = j + 1;
            },
            None => {
                proof {
                    lemma_line_start_none(v@, (n + 1) as nat, line as nat);
                }
                return None;
            },
        }
        n += 1;
    }
    Some(k)
}

proof fn lemma_line_start_none(s: Seq<char>, n: nat, line: nat)
    requires
        2 <= n <= line,
        line_start(s, n) is None,
    ensures
        line_start(s, line) is None,
    decreases line - n,
{
    if n < line {
        lemma_line_start_none(s, n + 1, line);
    }
}

fn offset_of_exec(v: &Vec<char>, line: usize, col: usize) -> (r: Option<usize>)
    ensures
        match r {
            Some(k) => offset_of(v@, line as nat, col as nat) == Some(k as int) && k <= v.len(),
            None => offset_of(v@, line as nat, col as nat) is None,
        },
{
    match line_start_exec(v, line) {
        Some(k) => if col >= 1 && col - 1 <= v.len() - k {
            Some(k + (col - 1))
        } else {
            None
        },
        None => None,
    }
}

fn is_embed_exec(v: &Vec<char>, p: NodePos) -> (r: bool)
    ensures
        r == is_embed_at(v@, p),
{
    match offset_of_exec(v, p.start_line, p.start_col) {
        Some(a) => a >= 1 && v[a - 1] == '!' && backslashes_before_exec(v, a - 1) % 2 == 0,
        None => false,
    }
}

fn span_exec(v: &Vec<char>, p: NodePos, wiki: bool) -> (r: Option<LinkSpan>)
    ensures
        r == span_at(v@, p, wiki),
{
    match (offset_of_exec(v, p.start_line, p.start_col), offset_of_exec(v, p.end_line, p.end_col)) {
        (Some(a), Some(z)) => {
            let found = if wiki { wiki_at_exec(v, a, false, a) } else { md_at_exec(v, a, false, a) };
            match found {
                Some(l) => if z < v.len() && l.end == z + 1 { Some(l) } else { None },
                None => None,
            }
        },
        _ => None,
    }
}

/// The links of `markdown` in document order, as comrak parses it.
pub fn link_records(markdown: &str) -> (r: Vec<LinkRecord>)
    ensures
        record_views(r@) == links_of(markdown@),
{
    let v = chars_of(markdown);
    let raw = parse_nodes(markdown);
    let ps = parse_positions(markdown);
    let mut ns: Vec<(NodeKind, Vec<char>)> = Vec::new();
    let mut i: usize = 0;
    while i < raw.len()
        invariant
            i <= raw.len(),
            cviews(ns@) == node_views(raw@).take(i as int),
        decreases raw.len() - i,
    {
        let t = chars_of(raw[i].1.as_str());
        let ghost before = ns@;
        assert(node_views(raw@)[i as int] == (raw@[i as int].0, raw@[i as int].1@));
        assert(node_views(raw@).take(i + 1) =~= node_views(raw@).take(i as int).push((raw@[i as int].0, t@)));
        ns.push((raw[i].0, t));
        assert(cviews(ns@) =~= cviews(before).push((raw@[i as int].0, t@)));
        assert(cviews(ns@) =~= node_views(raw@).take(i + 1));
        i += 1;
    }
    assert(node_views(raw@).take(i as int) =~= node_views(raw@));
    let ghost nsv = md_nodes(markdown@);
    let mut out: Vec<LinkRecord> = Vec::new();
    if ns.len() != ps.len() {
        assert(record_views(out@) =~= Seq::<LinkView>::empty());
        return out;
    }
    let mut n: usize = 0;
    assert(record_views(out@) =~= records_upto(v@, nsv, ps@, 0));
    while n < ns.len()
        invariant
            n <= ns.len(),
            ns.len() == ps.len(),
            cviews(ns@) == nsv,
            nsv == md_nodes(markdown@),
            ps@ == md_positions(markdown@),
            v@ == markdown@,
            record_views(out@) == records_upto(v@, nsv, ps@, n as int),
        decreases ns.len() - n,
    {
        assert(nsv[n as int] == (ns@[n as int].0, ns@[n as int].1@));
        let k = ns[n].0;
        if k == NodeKind::Link || k == NodeKind::WikiLink {
            let wiki = k == NodeKind::WikiLink;
            let end = subtree_end_exec(&ps, ps[n].depth, n + 1);
            let label = trim_chars(&plain_text_exec(&ns, n + 1, end));
            let embed = wiki && is_embed_exec(&v, ps[n]);
            let span = span_exec(&v, ps[n], wiki);
            let url = slice_chars(&ns[n].1, 0, ns[n].1.len());
            assert(url@ =~= ns@[n as int].1@);
            let ghost before = out@;
            out.push(LinkRecord { wiki, embed, url, label, span });
            assert(record_views(out@) =~= record_views(before).push(record_at(v@, nsv, ps@, n as int)->0));
        }
        n += 1;
    }
    out
}

} // verus!
