//! Vault-relative paths: splitting on `/`, resolving `.` and `..`, joining.
use vstd::prelude::*;
use crate::text::{chars_of, string_of, extend_chars, has_ci_at, matches_ci_at, matches_at};

verus! {

/// The pieces of `s` between slashes, as `str::split('/')` yields them.
pub open spec fn split_slash(s: Seq<char>) -> Seq<Seq<char>>
    decreases s.len(),
{
    if s.len() == 0 {
        seq![Seq::empty()]
    } else {
        let p = split_slash(s.drop_last());
        if s.last() == '/' {
            p.push(Seq::empty())
        } else {
            p.update(p.len() - 1, p.last().push(s.last()))
        }
    }
}

/// The segments of `segs` joined by single slashes.
pub open spec fn join_slash(segs: Seq<Seq<char>>) -> Seq<char>
    decreases segs.len(),
{
    if segs.len() == 0 {
        Seq::empty()
    } else if segs.len() == 1 {
        segs[0]
    } else {
        join_slash(segs.drop_last()) + seq!['/'] + segs.last()
    }
}

/// The character sequences that a vector of character vectors holds.
pub open spec fn views(v: Seq<Vec<char>>) -> Seq<Seq<char>> {
    v.map_values(|x: Vec<char>| x@)
}

pub open spec fn is_dot(s: Seq<char>) -> bool {
    s.len() == 1 && s[0] == '.'
}

pub open spec fn is_dotdot(s: Seq<char>) -> bool {
    s.len() == 2 && s[0] == '.' && s[1] == '.'
}

/// A segment that names a file or folder: not empty, not `.`, not `..`, no slash.
pub open spec fn is_plain_segment(s: Seq<char>) -> bool {
    s.len() > 0 && !is_dot(s) && !is_dotdot(s) && !s.contains('/')
}

/// One step of walking a relative path over a stack of folders.
pub open spec fn resolve_step(stack: Seq<Seq<char>>, part: Seq<char>) -> Option<Seq<Seq<char>>> {
    if part.len() == 0 || is_dot(part) {
        Some(stack)
    } else if is_dotdot(part) {
        if stack.len() == 0 {
            None
        } else {
            Some(stack.drop_last())
        }
    } else {
        Some(stack.push(part))
    }
}

/// Walks all of `parts` from `base`; `None` once a `..` leaves the root.
pub open spec fn resolve_parts(base: Seq<Seq<char>>, parts: Seq<Seq<char>>) -> Option<Seq<Seq<char>>>
    decreases parts.len(),
{
    if parts.len() == 0 {
        Some(base)
    } else {
        match resolve_parts(base, parts.drop_last()) {
            Some(st) => resolve_step(st, parts.last()),
            None => None,
        }
    }
}

/// The folders of a directory path; the empty path is the vault root.
pub open spec fn dir_segments(dir: Seq<char>) -> Seq<Seq<char>> {
    if dir.len() == 0 {
        Seq::empty()
    } else {
        split_slash(dir)
    }
}

/// `target` resolved against the folder `dir`; `None` when it leaves the vault or is empty.
pub open spec fn resolve_relative(dir: Seq<char>, target: Seq<char>) -> Option<Seq<char>> {
    match resolve_parts(dir_segments(dir), split_slash(target)) {
        Some(st) => if join_slash(st).len() == 0 {
            None
        } else {
            Some(join_slash(st))
        },
        None => None,
    }
}

/// A split has at least one piece.
pub proof fn lemma_split_nonempty(s: Seq<char>)
    ensures
        split_slash(s).len() >= 1,
    decreases s.len(),
{
    if s.len() > 0 {
        lemma_split_nonempty(s.drop_last());
    }
}

/// No piece of a split holds a slash.
pub proof fn lemma_split_no_slash(s: Seq<char>)
    ensures
        forall|k: int| 0 <= k < split_slash(s).len() ==> !(#[trigger] split_slash(s)[k]).contains('/'),
    decreases s.len(),
{
    if s.len() > 0 {
        lemma_split_no_slash(s.drop_last());
        lemma_split_nonempty(s.drop_last());
        let p = split_slash(s.drop_last());
        if s.last() != '/' {
            let q = p.last().push(s.last());
            assert forall|k: int| 0 <= k < split_slash(s).len() implies !(#[trigger] split_slash(s)[k]).contains('/') by {
                if k == p.len() - 1 {
                    assert forall|j: int| 0 <= j < q.len() implies q[j] != '/' by {
                        if j < p.last().len() {
                            assert(q[j] == p.last()[j]);
                        }
                    }
                }
            }
        } else {
            assert forall|k: int| 0 <= k < split_slash(s).len() implies !(#[trigger] split_slash(s)[k]).contains('/') by {
                if k < p.len() {
                    assert(split_slash(s)[k] == p[k]);
                } else {
                    assert(split_slash(s)[k] =~= Seq::<char>::empty());
                }
            }
        }
    }
}

/// Appending characters without a slash extends the last piece.
proof fn lemma_split_append_plain(a: Seq<char>, b: Seq<char>)
    requires
        !b.contains('/'),
    ensures
        split_slash(a + b) == split_slash(a).update(
            split_slash(a).len() - 1,
            split_slash(a).last() + b,
        ),
    decreases b.len(),
{
    lemma_split_nonempty(a);
    if b.len() == 0 {
        assert(a + b =~= a);
        assert(split_slash(a).last() + b =~= split_slash(a).last());
        assert(split_slash(a).update(split_slash(a).len() - 1, split_slash(a).last())
            =~= split_slash(a));
    } else {
        let b0 = b.drop_last();
        assert(!b0.contains('/')) by {
            if b0.contains('/') {
                let j = choose|j: int| 0 <= j < b0.len() && b0[j] == '/';
                assert(b[j] == '/');
            }
        }
        assert(b.last() != '/') by {
            assert(b[b.len() - 1] == b.last());
        }
        lemma_split_append_plain(a, b0);
        assert((a + b).drop_last() =~= a + b0);
        assert((a + b).last() == b.last());
        assert(split_slash(a).last() + b0 + seq![b.last()] =~= split_slash(a).last() + b);
        assert((split_slash(a).last() + b0).push(b.last()) =~= split_slash(a).last() + b);
        assert(split_slash(a + b) =~= split_slash(a).update(
            split_slash(a).len() - 1,
            split_slash(a).last() + b,
        ));
    }
}

/// Splitting a join gives the segments back, when no segment holds a slash.
pub proof fn lemma_split_join(segs: Seq<Seq<char>>)
    requires
        segs.len() >= 1,
        forall|k: int| 0 <= k < segs.len() ==> !(#[trigger] segs[k]).contains('/'),
    ensures
        split_slash(join_slash(segs)) == segs,
    decreases segs.len(),
{
    if segs.len() == 1 {
        lemma_split_append_plain(Seq::empty(), segs[0]);
        assert(Seq::<char>::empty() + segs[0] =~= segs[0]);
        assert(split_slash(Seq::<char>::empty()) =~= seq![Seq::<char>::empty()]);
        assert(Seq::<char>::empty() + segs[0] =~= segs[0]);
        assert(split_slash(segs[0]) =~= segs);
    } else {
        let init = segs.drop_last();
        assert forall|k: int| 0 <= k < init.len() implies !(#[trigger] init[k]).contains('/') by {
            assert(init[k] == segs[k]);
        }
        lemma_split_join(init);
        let a = join_slash(init) + seq!['/'];
        assert(a.drop_last() =~= join_slash(init));
        assert(split_slash(a) =~= init.push(Seq::empty()));
        assert(!segs.last().contains('/')) by {
            assert(segs[segs.len() - 1] == segs.last());
        }
        lemma_split_append_plain(a, segs.last());
        assert(Seq::<char>::empty() + segs.last() =~= segs.last());
        assert(split_slash(a + segs.last()) =~= segs);
    }
}

/// Splits on `/`.
pub fn split_slash_chars(v: &Vec<char>) -> (r: Vec<Vec<char>>)
    ensures
        views(r@) == split_slash(v@),
{
    let mut done: Vec<Vec<char>> = Vec::new();
    let mut cur: Vec<char> = Vec::new();
    let mut i: usize = 0;
    assert(v@.take(0) =~= Seq::<char>::empty());
    assert(views(done@).push(cur@) =~= seq![Seq::<char>::empty()]);
    while i < v.len()
        invariant
            i <= v@.len(),
            views(done@).push(cur@) == split_slash(v@.take(i as int)),
        decreases v@.len() - i,
    {
        let c = v[i];
        let ghost before = v@.take(i as int);
        assert(v@.take(i + 1).drop_last() =~= before);
        proof {
            lemma_split_nonempty(before);
        }
        let ghost dv = views(done@);
        let ghost cv = cur@;
        if c == '/' {
            done.push(cur);
            assert(views(done@) =~= dv.push(cv));
            cur = Vec::new();
            assert(views(done@).push(cur@) =~= split_slash(before).push(Seq::empty()));
        } else {
            cur.push(c);
            assert(views(done@).push(cur@) =~= split_slash(before).update(
                split_slash(before).len() - 1,
                split_slash(before).last().push(c),
            ));
        }
        i += 1;
    }
    assert(v@.take(i as int) =~= v@);
    let ghost dv = views(done@);
    let ghost cv = cur@;
    done.push(cur);
    assert(views(done@) =~= dv.push(cv));
    done
}

/// Joins segments with `/`.
pub fn join_slash_chars(segs: &Vec<Vec<char>>) -> (r: Vec<char>)
    ensures
        r@ == join_slash(views(segs@)),
{
    let mut out: Vec<char> = Vec::new();
    let mut i: usize = 0;
    while i < segs.len()
        invariant
            i <= segs@.len(),
            out@ == join_slash(views(segs@).take(i as int)),
        decreases segs@.len() - i,
    {
        let ghost before = views(segs@).take(i as int);
        assert(views(segs@).take(i + 1).drop_last() =~= before);
        if i > 0 {
            out.push('/');
        }
        extend_chars(&mut out, &segs[i]);
        i += 1;
        assert(out@ =~= join_slash(views(segs@).take(i as int)));
    }
    assert(views(segs@).take(i as int) =~= views(segs@));
    out
}

fn is_dot_chars(s: &Vec<char>) -> (r: bool)
    ensures
        r == is_dot(s@),
{
    s.len() == 1 && s[0] == '.'
}

fn is_dotdot_chars(s: &Vec<char>) -> (r: bool)
    ensures
        r == is_dotdot(s@),
{
    s.len() == 2 && s[0] == '.' && s[1] == '.'
}

/// Resolves `target` against the folder `dir`, both as characters.
pub fn resolve_relative_chars(dir: &Vec<char>, target: &Vec<char>) -> (r: Option<Vec<char>>)
    ensures
        match r {
            Some(p) => resolve_relative(dir@, target@) == Some(p@),
            None => resolve_relative(dir@, target@) is None,
        },
{
    let mut stack: Vec<Vec<char>> = if dir.len() == 0 {
        Vec::new()
    } else {
        split_slash_chars(dir)
    };
    proof {
        if dir@.len() == 0 {
            assert(views(stack@) =~= dir_segments(dir@));
        }
    }
    let parts = split_slash_chars(target);
    let mut i: usize = 0;
    assert(views(parts@).take(0) =~= Seq::<Seq<char>>::empty());
    while i < parts.len()
        invariant
            i <= parts@.len(),
            views(parts@) == split_slash(target@),
            resolve_parts(dir_segments(dir@), views(parts@).take(i as int)) == Some(
                views(stack@),
            ),
        decreases parts@.len() - i,
    {
        let ghost st = views(stack@);
        assert(views(parts@).take(i + 1).drop_last() =~= views(parts@).take(i as int));
        assert(views(parts@).take(i + 1).last() == parts[i as int]@);
        let part = &parts[i];
        if part.len() == 0 || is_dot_chars(part) {
        } else if is_dotdot_chars(part) {
            if stack.len() == 0 {
                assert(resolve_parts(dir_segments(dir@), views(parts@).take(i + 1)) is None);
                proof {
                    lemma_resolve_none_stays(dir_segments(dir@), views(parts@), i as int + 1);
                }
                return None;
            }
            stack.pop();
            assert(views(stack@) =~= st.drop_last());
        } else {
            stack.push(part.clone());
            assert(views(stack@) =~= st.push(part@));
        }
        i += 1;
    }
    assert(views(parts@).take(i as int) =~= views(parts@));
    let joined = join_slash_chars(&stack);
    if joined.len() == 0 {
        None
    } else {
        Some(joined)
    }
}

/// Once a walk has left the root it stays failed.
proof fn lemma_resolve_none_stays(base: Seq<Seq<char>>, parts: Seq<Seq<char>>, n: int)
    requires
        0 <= n <= parts.len(),
        resolve_parts(base, parts.take(n)) is None,
    ensures
        resolve_parts(base, parts) is None,
    decreases parts.len() - n,
{
    if n < parts.len() {
        assert(parts.take(n + 1).drop_last() =~= parts.take(n));
        lemma_resolve_none_stays(base, parts, n + 1);
    } else {
        assert(parts.take(n) =~= parts);
    }
}

/// Resolves `target` against the folder `source_dir` of the vault: `.` and empty
/// segments are skipped, `..` goes up one folder; `None` when the path leaves the
/// vault or comes out empty.
pub fn resolve_relative_path(source_dir: &str, target: &str) -> (r: Option<String>)
    ensures
        match r {
            Some(p) => resolve_relative(source_dir@, target@) == Some(p@),
            None => resolve_relative(source_dir@, target@) is None,
        },
{
    let d = chars_of(source_dir);
    let t = chars_of(target);
    match resolve_relative_chars(&d, &t) {
        Some(p) => Some(string_of(&p)),
        None => None,
    }
}


/// Position of the last `/` in `s`, or -1.
pub open spec fn last_slash(s: Seq<char>) -> int
    decreases s.len(),
{
    if s.len() == 0 {
        -1
    } else if s.last() == '/' {
        s.len() - 1
    } else {
        last_slash(s.drop_last())
    }
}

/// The folder part of a path: what stands before its last `/`, or empty.
pub open spec fn parent_of(s: Seq<char>) -> Seq<char> {
    if last_slash(s) < 0 {
        Seq::empty()
    } else {
        s.take(last_slash(s))
    }
}

/// The leaf of a path: what stands after its last `/`.
pub open spec fn leaf_of(s: Seq<char>) -> Seq<char> {
    s.skip(last_slash(s) + 1)
}

/// The last slash is a slash, and none follows it.
pub proof fn lemma_last_slash(s: Seq<char>)
    ensures
        -1 <= last_slash(s) < s.len(),
        last_slash(s) >= 0 ==> s[last_slash(s)] == '/',
        forall|j: int| last_slash(s) < j < s.len() ==> s[j] != '/',
    decreases s.len(),
{
    if s.len() > 0 && s.last() != '/' {
        lemma_last_slash(s.drop_last());
        assert forall|j: int| last_slash(s) < j < s.len() implies s[j] != '/' by {
            if j < s.len() - 1 {
                assert(s[j] == s.drop_last()[j]);
            }
        }
        if last_slash(s) >= 0 {
            assert(s[last_slash(s)] == s.drop_last()[last_slash(s)]);
        }
    }
}

fn last_slash_index(v: &Vec<char>) -> (r: Option<usize>)
    ensures
        match r {
            Some(i) => last_slash(v@) == i as int && i < v.len(),
            None => last_slash(v@) == -1,
        },
{
    let mut n: usize = v.len();
    assert(v@.take(n as int) =~= v@);
    while n > 0
        invariant
            n <= v@.len(),
            last_slash(v@) == last_slash(v@.take(n as int)),
        decreases n,
    {
        assert(v@.take(n as int).drop_last() =~= v@.take(n - 1));
        assert(v@.take(n as int).last() == v@[n - 1]);
        if v[n - 1] == '/' {
            return Some(n - 1);
        }
        n -= 1;
    }
    assert(v@.take(0) =~= Seq::<char>::empty());
    None
}

/// The folder that holds `source_path`: what precedes its last `/`, or the empty root.
pub fn source_dir_from_path(source_path: &str) -> (r: String)
    ensures
        r@ == parent_of(source_path@),
{
    let v = chars_of(source_path);
    proof {
        lemma_last_slash(v@);
    }
    match last_slash_index(&v) {
        Some(i) => string_of(&crate::text::slice_chars(&v, 0, i)),
        None => String::new(),
    }
}

/// The parent folder of a note or folder path; empty at the vault root.
pub fn parent_folder_path(path: &str) -> (r: String)
    ensures
        r@ == parent_of(path@),
{
    source_dir_from_path(path)
}

pub open spec fn md_suffix() -> Seq<char> {
    seq!['.', 'm', 'd']
}

/// `s` ends in `.md`, in any ASCII case.
pub open spec fn ends_with_md(s: Seq<char>) -> bool {
    has_ci_at(s, s.len() - 3, md_suffix())
}

/// `s` with `.md` appended, unless it already ends in `.md` in any case.
pub open spec fn with_md(s: Seq<char>) -> Seq<char> {
    if ends_with_md(s) {
        s
    } else {
        s + md_suffix()
    }
}

fn md_chars() -> (r: Vec<char>)
    ensures
        r@ == md_suffix(),
{
    vec!['.', 'm', 'd']
}

/// Whether `v` ends in `.md`, in any ASCII case.
pub fn ends_with_md_chars(v: &Vec<char>) -> (r: bool)
    ensures
        r == ends_with_md(v@),
{
    if v.len() < 3 {
        return false;
    }
    matches_ci_at(v, v.len() - 3, &md_chars())
}

/// Appends `.md` unless already there.
pub fn with_md_chars(v: &Vec<char>) -> (r: Vec<char>)
    ensures
        r@ == with_md(v@),
{
    let mut out = v.clone();
    assert(out@ == v@);
    if !ends_with_md_chars(v) {
        extend_chars(&mut out, &md_chars());
    }
    out
}

/// `value` with the `.md` extension appended unless it already ends in `.md` (any case).
pub fn ensure_md_extension(value: &str) -> (r: String)
    ensures
        r@ == with_md(value@),
{
    string_of(&with_md_chars(&chars_of(value)))
}

/// `s` without a final `.md` (any case).
pub open spec fn without_md(s: Seq<char>) -> Seq<char> {
    if ends_with_md(s) {
        s.take(s.len() - 3)
    } else {
        s
    }
}

/// Drops a final `.md` (any case).
pub fn without_md_chars(v: &Vec<char>) -> (r: Vec<char>)
    ensures
        r@ == without_md(v@),
{
    if ends_with_md_chars(v) {
        crate::text::slice_chars(v, 0, v.len() - 3)
    } else {
        v.clone()
    }
}

pub open spec fn http_prefix() -> Seq<char> {
    seq!['h', 't', 't', 'p', ':', '/', '/']
}

pub open spec fn https_prefix() -> Seq<char> {
    seq!['h', 't', 't', 'p', 's', ':', '/', '/']
}

/// `s` starts with `http://` or `https://`, in any ASCII case.
pub open spec fn is_external(s: Seq<char>) -> bool {
    has_ci_at(s, 0, http_prefix()) || has_ci_at(s, 0, https_prefix())
}

/// Whether the characters start a web address.
pub fn is_external_chars(v: &Vec<char>) -> (r: bool)
    ensures
        r == is_external(v@),
{
    let http: Vec<char> = vec!['h', 't', 't', 'p', ':', '/', '/'];
    let https: Vec<char> = vec!['h', 't', 't', 'p', 's', ':', '/', '/'];
    matches_ci_at(v, 0, &http) || matches_ci_at(v, 0, &https)
}

/// Whether a link points outside the vault: it starts with `http://` or `https://`.
pub fn is_external_url(value: &str) -> (r: bool)
    ensures
        r == is_external(value@),
{
    is_external_chars(&chars_of(value))
}

/// The name of a note: its leaf without a final `.md`.
pub open spec fn note_name(rel: Seq<char>) -> Seq<char> {
    let leaf = leaf_of(rel);
    if leaf.len() >= 3 && leaf.skip(leaf.len() - 3) == md_suffix() {
        leaf.take(leaf.len() - 3)
    } else {
        leaf
    }
}

/// The display name of a note path: the leaf without its `.md` suffix.
pub fn name_from_rel_path(rel_path: &str) -> (r: String)
    ensures
        r@ == note_name(rel_path@),
{
    let v = chars_of(rel_path);
    proof {
        lemma_last_slash(v@);
    }
    let start: usize = match last_slash_index(&v) {
        Some(i) => i + 1,
        None => 0,
    };
    let leaf = crate::text::slice_chars(&v, start, v.len());
    assert(leaf@ =~= leaf_of(v@));
    if leaf.len() >= 3 && matches_at(&leaf, leaf.len() - 3, &md_chars()) {
        assert(leaf@.subrange(leaf@.len() - 3, leaf@.len() as int) =~= leaf@.skip(leaf@.len() - 3));
        string_of(&crate::text::slice_chars(&leaf, 0, leaf.len() - 3))
    } else {
        proof {
            if leaf@.len() >= 3 {
                assert(leaf@.subrange(leaf@.len() - 3, leaf@.len() as int) =~= leaf@.skip(leaf@.len() - 3));
            }
        }
        string_of(&leaf)
    }
}

/// The folder part of a path, as characters.
pub fn parent_chars(v: &Vec<char>) -> (r: Vec<char>)
    ensures
        r@ == parent_of(v@),
{
    proof {
        lemma_last_slash(v@);
    }
    match last_slash_index(v) {
        Some(i) => crate::text::slice_chars(v, 0, i),
        None => Vec::new(),
    }
}

/// Position of the last `/` in a path, if any.
pub fn last_slash_index_pub(v: &Vec<char>) -> (r: Option<usize>)
    ensures
        match r {
            Some(i) => last_slash(v@) == i as int && i < v.len(),
            None => last_slash(v@) == -1,
        },
{
    last_slash_index(v)
}

/// Appending characters without a slash extends the last piece of a split.
pub proof fn lemma_split_append_plain_pub(a: Seq<char>, b: Seq<char>)
    requires
        !b.contains('/'),
    ensures
        split_slash(a + b) == split_slash(a).update(
            split_slash(a).len() - 1,
            split_slash(a).last() + b,
        ),
{
    lemma_split_append_plain(a, b);
}

} // verus!
