//! The records of the index that cross the engine's boundary, and the decisions
//! that turn a query into a database match.
use vstd::prelude::*;
use vstd::string::StringExecFns;
use crate::text::{chars_of, string_of, trim, trim_chars};
use crate::query::{
    escape_fts_query, escape_fts_prefix_query, like_contains_pattern, quoted_phrases,
    prefix_phrases, words, like_escape, lower_of,
};

verus! {

/// One indexed note.
#[derive(Debug, Clone, PartialEq, Eq)]
pub struct IndexNoteMeta {
    pub id: String,
    pub path: String,
    pub title: String,
    pub name: String,
    pub mtime_ms: i64,
    pub size_bytes: i64,
}

/// Which column a search looks at.
#[derive(Debug, Clone, Copy, PartialEq, Eq)]
pub enum SearchScope {
    All,
    Path,
    Title,
    Content,
}

/// A search request from the editor.
#[derive(Debug, Clone, PartialEq, Eq)]
pub struct SearchQueryInput {
    pub raw: String,
    pub text: String,
    pub scope: SearchScope,
}

/// A link target with no note, and how many links point at it.
#[derive(Debug, Clone, PartialEq, Eq)]
pub struct PlannedSuggestionHit {
    pub target_path: String,
    pub ref_count: i64,
}

/// A target of a note's links that has no note, and how many links in the vault
/// point at it.
#[derive(Debug, Clone, PartialEq, Eq)]
pub struct OrphanLink {
    pub target_path: String,
    pub ref_count: i64,
}

/// The links around one note: what links to it, what it links to, and its links to
/// notes that do not exist.
#[derive(Debug, Clone, PartialEq, Eq)]
pub struct NoteLinksSnapshot {
    pub backlinks: Vec<IndexNoteMeta>,
    pub outlinks: Vec<IndexNoteMeta>,
    pub orphan_links: Vec<OrphanLink>,
}

/// How an index run is going, as reported to the editor.
#[derive(Debug, Clone, PartialEq, Eq)]
pub enum IndexProgressEvent {
    Started { vault_id: String, total: usize },
    Progress { vault_id: String, indexed: usize, total: usize },
    Completed { vault_id: String, indexed: usize, elapsed_ms: u64 },
    Failed { vault_id: String, error: String },
}

/// The column filter that a scope puts before the match expression.
pub open spec fn scope_prefix(scope: SearchScope) -> Seq<char> {
    match scope {
        SearchScope::All => Seq::empty(),
        SearchScope::Title => seq!['t', 'i', 't', 'l', 'e', ' ', ':', ' '],
        SearchScope::Path => seq!['p', 'a', 't', 'h', ' ', ':', ' '],
        SearchScope::Content => seq!['b', 'o', 'd', 'y', ' ', ':', ' '],
    }
}

fn scope_prefix_chars(scope: SearchScope) -> (r: Vec<char>)
    ensures
        r@ == scope_prefix(scope),
{
    match scope {
        SearchScope::All => Vec::new(),
        SearchScope::Title => vec!['t', 'i', 't', 'l', 'e', ' ', ':', ' '],
        SearchScope::Path => vec!['p', 'a', 't', 'h', ' ', ':', ' '],
        SearchScope::Content => vec!['b', 'o', 'd', 'y', ' ', ':', ' '],
    }
}

/// The full-text match for a search, or `None` when the trimmed query is empty (the
/// search then returns no hits without asking the database).
pub fn search_match_expr(query: &str, scope: SearchScope) -> (r: Option<String>)
    ensures
        r is None <==> trim(query@).len() == 0,
        r matches Some(x) ==> x@ == scope_prefix(scope) + quoted_phrases(words(trim(query@))),
{
    let t = trim_chars(&chars_of(query));
    if t.len() == 0 {
        return None;
    }
    let escaped = escape_fts_query(string_of(&t).as_str());
    let mut out = string_of(&scope_prefix_chars(scope));
    out.append(escaped.as_str());
    Some(out)
}

pub open spec fn suggest_columns() -> Seq<char> {
    seq!['{', 't', 'i', 't', 'l', 'e', ' ', 'n', 'a', 'm', 'e', ' ', 'p', 'a', 't', 'h', '}', ' ', ':', ' ']
}

/// The prefix match over title, name and path for a suggestion, or `None` when the
/// trimmed query is empty or keeps no term (no suggestions then).
pub fn suggest_match_expr(query: &str) -> (r: Option<String>)
    ensures
        r is None <==> (trim(query@).len() == 0 || prefix_phrases(words(trim(query@))).len() == 0),
        r matches Some(x) ==> x@ == suggest_columns() + prefix_phrases(words(trim(query@))),
{
    let t = trim_chars(&chars_of(query));
    if t.len() == 0 {
        return None;
    }
    let escaped = escape_fts_prefix_query(string_of(&t).as_str());
    if escaped.as_str().is_empty() {
        return None;
    }
    let cols: Vec<char> = vec!['{', 't', 'i', 't', 'l', 'e', ' ', 'n', 'a', 'm', 'e', ' ', 'p', 'a', 't', 'h', '}', ' ', ':', ' '];
    let mut out = string_of(&cols);
    out.append(escaped.as_str());
    Some(out)
}

/// The LIKE pattern for planned-link suggestions, or `None` when the trimmed query
/// is empty (no suggestions then).
pub fn planned_match_pattern(query: &str) -> (r: Option<String>)
    ensures
        r is None <==> trim(query@).len() == 0,
        r matches Some(x) ==> x@ == seq!['%'] + like_escape(lower_of(trim(query@))) + seq!['%'],
{
    let t = trim_chars(&chars_of(query));
    if t.len() == 0 {
        return None;
    }
    Some(like_contains_pattern(query))
}

} // verus!
