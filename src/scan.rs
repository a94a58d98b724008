//! The written form of one link: where the target of a wiki link (`[[target|alias]]`)
//! or a markdown link (`[label](href)`) stands in the link's own source.
use vstd::prelude::*;

verus! {

/// Where a link stands in a body, by character positions.
/// For a wiki link the target range is what stands between `[[` and `]]`, and the
/// label range repeats it. For a markdown link the label is between `[` and `]`,
/// the target between `(` and `)`. `start` is at the `!` of an embed or image.
#[derive(Clone, Copy, Debug, PartialEq, Eq)]
pub struct LinkSpan {
    pub wiki: bool,
    pub embed: bool,
    pub start: usize,
    pub end: usize,
    pub label_start: usize,
    pub label_end: usize,
    pub target_start: usize,
    pub target_end: usize,
}

/// `o` moved `k` places further.
pub open spec fn shift(o: Option<nat>, k: nat) -> Option<nat> {
    match o {
        Some(d) => Some(d + k),
        None => None,
    }
}

/// Distance from `q` to the first `c` at or after `q`.
pub open spec fn find_off(s: Seq<char>, q: int, c: char) -> Option<nat>
    decreases s.len() - q,
{
    if q < 0 || q >= s.len() {
        None
    } else if s[q] == c {
        Some(0)
    } else {
        shift(find_off(s, q + 1, c), 1)
    }
}

/// Distance from `q` to the first `]` or line break at or after `q`.
pub open spec fn find_wiki_stop(s: Seq<char>, q: int) -> Option<nat>
    decreases s.len() - q,
{
    if q < 0 || q >= s.len() {
        None
    } else if s[q] == ']' || s[q] == '\n' {
        Some(0)
    } else {
        shift(find_wiki_stop(s, q + 1), 1)
    }
}



/// Number of backslashes right before position `p`.
pub open spec fn backslashes_before(s: Seq<char>, p: int) -> nat
    decreases p,
{
    if p <= 0 || p > s.len() || s[p - 1] != '\\' {
        0
    } else {
        1 + backslashes_before(s, p - 1)
    }
}

/// A `[[target]]` whose `[[` is at `q`: the target holds no `]` and no line break.
pub open spec fn wiki_at(s: Seq<char>, q: int, embed: bool, start: int) -> Option<LinkSpan> {
    if 0 <= q && q + 1 < s.len() && s[q] == '[' && s[q + 1] == '[' {
        match find_wiki_stop(s, q + 2) {
            Some(d) => {
                let e = q + 2 + d;
                if d > 0 && s[e] == ']' && e + 1 < s.len() && s[e + 1] == ']' {
                    Some(
                        LinkSpan {
                            wiki: true,
                            embed,
                            start: start as usize,
                            end: (e + 2) as usize,
                            label_start: (q + 2) as usize,
                            label_end: e as usize,
                            target_start: (q + 2) as usize,
                            target_end: e as usize,
                        },
                    )
                } else {
                    None
                }
            },
            None => None,
        }
    } else {
        None
    }
}

/// A `[label](href)` whose `[` is at `q`: the label holds no `]`, the href is not
/// empty and holds no `)`.
pub open spec fn md_at(s: Seq<char>, q: int, embed: bool, start: int) -> Option<LinkSpan> {
    if 0 <= q && q < s.len() && s[q] == '[' {
        match find_off(s, q + 1, ']') {
            Some(d1) => {
                let e1 = q + 1 + d1;
                if e1 + 1 < s.len() && s[e1 + 1] == '(' {
                    match find_off(s, e1 + 2, ')') {
                        Some(d2) => {
                            let e2 = e1 + 2 + d2;
                            if d2 > 0 {
                                Some(
                                    LinkSpan {
                                        wiki: false,
                                        embed,
                                        start: start as usize,
                                        end: (e2 + 1) as usize,
                                        label_start: (q + 1) as usize,
                                        label_end: e1 as usize,
                                        target_start: (e1 + 2) as usize,
                                        target_end: e2 as usize,
                                    },
                                )
                            } else {
                                None
                            }
                        },
                        None => None,
                    }
                } else {
                    None
                }
            },
            None => None,
        }
    } else {
        None
    }
}




pub(crate) fn find_char(v: &Vec<char>, q: usize, c: char) -> (r: Option<usize>)
    requires
        q <= v.len(),
    ensures
        match r {
            Some(j) => q <= j < v.len() && find_off(v@, q as int, c) == Some((j - q) as nat),
            None => find_off(v@, q as int, c) is None,
        },
{
    let mut j: usize = q;
    while j < v.len()
        invariant
            q <= j <= v.len(),
            find_off(v@, q as int, c) == shift(find_off(v@, j as int, c), (j - q) as nat),
        decreases v.len() - j,
    {
        if v[j] == c {
            return Some(j);
        }
        j += 1;
    }
    None
}

fn find_wiki_stop_exec(v: &Vec<char>, q: usize) -> (r: Option<usize>)
    requires
        q <= v.len(),
    ensures
        match r {
            Some(j) => q <= j < v.len() && find_wiki_stop(v@, q as int) == Some((j - q) as nat),
            None => find_wiki_stop(v@, q as int) is None,
        },
{
    let mut j: usize = q;
    while j < v.len()
        invariant
            q <= j <= v.len(),
            find_wiki_stop(v@, q as int) == shift(find_wiki_stop(v@, j as int), (j - q) as nat),
        decreases v.len() - j,
    {
        if v[j] == ']' || v[j] == '\n' {
            return Some(j);
        }
        j += 1;
    }
    None
}



pub(crate) fn backslashes_before_exec(v: &Vec<char>, p: usize) -> (r: usize)
    requires
        p <= v.len(),
    ensures
        r == backslashes_before(v@, p as int),
{
    let mut k: usize = p;
    while k > 0 && v[k - 1] == '\\'
        invariant
            k <= p <= v.len(),
            backslashes_before(v@, p as int) == (p - k) + backslashes_before(v@, k as int),
        decreases k,
    {
        k -= 1;
    }
    p - k
}

pub(crate) fn wiki_at_exec(v: &Vec<char>, q: usize, embed: bool, start: usize) -> (r: Option<LinkSpan>)
    requires
        q <= v.len(),
        start <= q,
    ensures
        r == wiki_at(v@, q as int, embed, start as int),
        match r {
            Some(l) => l.end <= v.len() && l.end > q,
            None => true,
        },
{
    if q < v.len() && q + 1 < v.len() && v[q] == '[' && v[q + 1] == '[' {
        match find_wiki_stop_exec(v, q + 2) {
            Some(e) => {
                if e > q + 2 && v[e] == ']' && e + 1 < v.len() && v[e + 1] == ']' {
                    Some(
                        LinkSpan {
                            wiki: true,
                            embed,
                            start,
                            end: e + 2,
                            label_start: q + 2,
                            label_end: e,
                            target_start: q + 2,
                            target_end: e,
                        },
                    )
                } else {
                    None
                }
            },
            None => None,
        }
    } else {
        None
    }
}

pub(crate) fn md_at_exec(v: &Vec<char>, q: usize, embed: bool, start: usize) -> (r: Option<LinkSpan>)
    requires
        q <= v.len(),
        start <= q,
    ensures
        r == md_at(v@, q as int, embed, start as int),
        match r {
            Some(l) => l.end <= v.len() && l.end > q,
            None => true,
        },
{
    if q < v.len() && v[q] == '[' {
        match find_char(v, q + 1, ']') {
            Some(e1) => {
                if e1 + 1 < v.len() && v[e1 + 1] == '(' {
                    match find_char(v, e1 + 2, ')') {
                        Some(e2) => {
                            if e2 > e1 + 2 {
                                Some(
                                    LinkSpan {
                                        wiki: false,
                                        embed,
                                        start,
                                        end: e2 + 1,
                                        label_start: q + 1,
                                        label_end: e1,
                                        target_start: e1 + 2,
                                        target_end: e2,
                                    },
                                )
                            } else {
                                None
                            }
                        },
                        None => None,
                    }
                } else {
                    None
                }
            },
            None => None,
        }
    } else {
        None
    }
}







} // verus!
