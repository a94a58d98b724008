//! The records of the vault's git history that the editor shows.
use vstd::prelude::*;

verus! {

#[derive(Debug, Clone, PartialEq, Eq)]
pub struct GitFileStatus {
    pub path: String,
    pub status: String,
}

#[derive(Debug, Clone, PartialEq, Eq)]
pub struct GitStatus {
    pub branch: String,
    pub is_dirty: bool,
    pub ahead: usize,
    pub behind: usize,
    pub files: Vec<GitFileStatus>,
}

#[derive(Debug, Clone, PartialEq, Eq)]
pub struct GitCommit {
    pub hash: String,
    pub short_hash: String,
    pub author: String,
    pub timestamp_ms: i64,
    pub message: String,
}

#[derive(Debug, Clone, PartialEq, Eq)]
pub struct GitDiffLine {
    pub line_type: String,
    pub content: String,
    pub old_line: Option<u32>,
    pub new_line: Option<u32>,
}

#[derive(Debug, Clone, PartialEq, Eq)]
pub struct GitDiffHunk {
    pub header: String,
    pub lines: Vec<GitDiffLine>,
}

#[derive(Debug, Clone, PartialEq, Eq)]
pub struct GitDiff {
    pub additions: usize,
    pub deletions: usize,
    pub hunks: Vec<GitDiffHunk>,
}

/// The kind of a diff line by its origin mark: `+` an addition, `-` a deletion,
/// anything else context.
pub fn line_type(origin: char) -> (r: &'static str)
    ensures
        origin == '+' ==> r@ == seq!['a', 'd', 'd', 'i', 't', 'i', 'o', 'n'],
        origin == '-' ==> r@ == seq!['d', 'e', 'l', 'e', 't', 'i', 'o', 'n'],
        origin != '+' && origin != '-' ==> r@ == seq!['c', 'o', 'n', 't', 'e', 'x', 't'],
{
    proof {
        reveal_strlit("addition");
        reveal_strlit("deletion");
        reveal_strlit("context");
    }
    match origin {
        '+' => "addition",
        '-' => "deletion",
        _ => "context",
    }
}

} // verus!
