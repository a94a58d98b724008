//! Notes and folders of a vault: the records the editor exchanges, and the rules
//! for names and paths that the file commands follow.
use vstd::prelude::*;
use vstd::string::StringExecFns;
use crate::text::{chars_of, string_of, slice_chars, push_char, has_at};
use crate::paths::{split_slash, split_slash_chars, is_dot, is_dotdot, views, lemma_last_slash, leaf_of};

verus! {

#[derive(Debug, Clone, PartialEq, Eq)]
pub struct NoteMeta {
    pub id: String,
    pub path: String,
    pub name: String,
    pub title: String,
    pub mtime_ms: i64,
    pub size_bytes: i64,
}

#[derive(Debug, Clone, PartialEq, Eq)]
pub struct NoteDoc {
    pub meta: NoteMeta,
    pub markdown: String,
}

#[derive(Debug, Clone, PartialEq, Eq)]
pub struct NoteWriteArgs {
    pub vault_id: String,
    pub note_id: String,
    pub markdown: String,
}

#[derive(Debug, Clone, PartialEq, Eq)]
pub struct NoteCreateArgs {
    pub vault_id: String,
    pub note_path: String,
    pub initial_markdown: String,
}

#[derive(Debug, Clone, PartialEq, Eq)]
pub struct WriteImageAssetArgs {
    pub vault_id: String,
    pub note_path: String,
    pub mime_type: String,
    pub file_name: Option<String>,
    pub bytes: Vec<u8>,
    pub custom_filename: Option<String>,
    pub attachment_folder: Option<String>,
}

#[derive(Debug, Clone, PartialEq, Eq)]
pub struct NoteRenameArgs {
    pub vault_id: String,
    pub from: String,
    pub to: String,
}

#[derive(Debug, Clone, PartialEq, Eq)]
pub struct NoteDeleteArgs {
    pub vault_id: String,
    pub note_id: String,
}

#[derive(Debug, Clone, PartialEq, Eq)]
pub struct FolderContents {
    pub notes: Vec<NoteMeta>,
    pub subfolders: Vec<String>,
    pub total_count: usize,
    pub has_more: bool,
}

#[derive(Debug, Clone, Copy, PartialEq, Eq)]
pub struct FolderStats {
    pub note_count: usize,
    pub folder_count: usize,
}

#[derive(Debug, Clone, PartialEq, Eq)]
pub struct FolderCreateArgs {
    pub vault_id: String,
    pub parent_path: String,
    pub folder_name: String,
}

#[derive(Debug, Clone, PartialEq, Eq)]
pub struct FolderRenameArgs {
    pub vault_id: String,
    pub from_path: String,
    pub to_path: String,
}

#[derive(Debug, Clone, PartialEq, Eq)]
pub struct MoveItem {
    pub path: String,
    pub is_folder: bool,
}

#[derive(Debug, Clone, PartialEq, Eq)]
pub struct MoveItemsArgs {
    pub vault_id: String,
    pub items: Vec<MoveItem>,
    pub target_folder: String,
    pub overwrite: bool,
}

#[derive(Debug, Clone, PartialEq, Eq)]
pub struct MoveItemResult {
    pub path: String,
    pub new_path: String,
    pub success: bool,
    pub error: Option<String>,
}

#[derive(Debug, Clone, PartialEq, Eq)]
pub struct FolderDeleteArgs {
    pub vault_id: String,
    pub folder_path: String,
}

#[derive(Debug, Clone, PartialEq, Eq)]
pub struct FolderDeleteResult {
    pub deleted_notes: Vec<String>,
    pub deleted_folders: Vec<String>,
}

/// Why a relative path given by a caller is refused.
#[derive(Debug, Clone, Copy, PartialEq, Eq)]
pub enum RelPathError {
    /// It starts at the root of the file system.
    Absolute,
    /// It starts with `.` or holds a `..` segment.
    InvalidSegments,
}

/// A relative path that stays inside the vault: it does not start with `/`, its
/// first segment is not `.`, and no segment is `..`.
pub open spec fn rel_path_error(s: Seq<char>) -> Option<RelPathError> {
    if s.len() > 0 && s[0] == '/' {
        Some(RelPathError::Absolute)
    } else if is_dot(split_slash(s)[0]) || exists|k: int|
        0 <= k < split_slash(s).len() && is_dotdot(#[trigger] split_slash(s)[k]) {
        Some(RelPathError::InvalidSegments)
    } else {
        None
    }
}

fn rel_path_check(rel: &str) -> (r: Option<RelPathError>)
    ensures
        r == rel_path_error(rel@),
{
    let v = chars_of(rel);
    if v.len() > 0 && v[0] == '/' {
        return Some(RelPathError::Absolute);
    }
    let parts = split_slash_chars(&v);
    proof {
        crate::paths::lemma_split_nonempty(v@);
    }
    assert(views(parts@)[0] == parts@[0]@);
    let first_dot = parts[0].len() == 1 && parts[0][0] == '.';
    assert(first_dot == is_dot(split_slash(rel@)[0]));
    if first_dot {
        return Some(RelPathError::InvalidSegments);
    }
    let mut k: usize = 0;
    while k < parts.len()
        invariant
            k <= parts@.len(),
            views(parts@) == split_slash(v@),
            v@ == rel@,
            !is_dot(split_slash(rel@)[0]),
            !(rel@.len() > 0 && rel@[0] == '/'),
            forall|j: int| 0 <= j < k ==> !is_dotdot(#[trigger] views(parts@)[j]),
        decreases parts@.len() - k,
    {
        assert(views(parts@)[k as int] == parts@[k as int]@);
        if parts[k].len() == 2 && parts[k][0] == '.' && parts[k][1] == '.' {
            assert(is_dotdot(split_slash(rel@)[k as int]));
            return Some(RelPathError::InvalidSegments);
        }
        k += 1;
    }
    assert forall|j: int| 0 <= j < split_slash(rel@).len() implies !is_dotdot(
        #[trigger] split_slash(rel@)[j],
    ) by {
        assert(views(parts@)[j] == split_slash(rel@)[j]);
    }
    None
}

/// Accepts a target path for an imported asset only when it is relative and stays
/// inside the vault (see `rel_path_error`).
pub fn validate_target_rel_path(rel: &str) -> (r: Result<(), String>)
    ensures
        r is Ok <==> rel_path_error(rel@) is None,
{
    match rel_path_check(rel) {
        None => Ok(()),
        Some(RelPathError::Absolute) => Err(String::from_str("target_path must be relative")),
        Some(RelPathError::InvalidSegments) => Err(
            String::from_str("target_path contains invalid segments"),
        ),
    }
}

/// Accepts a note path given by a caller when it is relative and stays inside the
/// vault (see `rel_path_error`), and hands it back.
pub fn parse_safe_relative_path(path: &str) -> (r: Result<String, String>)
    ensures
        r is Ok <==> rel_path_error(path@) is None,
        r matches Ok(p) ==> p@ == path@,
{
    match rel_path_check(path) {
        None => Ok(String::from_str(path)),
        Some(RelPathError::Absolute) => Err(String::from_str("note path must be relative")),
        Some(RelPathError::InvalidSegments) => Err(
            String::from_str("note path contains invalid segments"),
        ),
    }
}

/// `path` is `parent` or lies below it; nothing lies below the empty root.
pub open spec fn is_descendant(path: Seq<char>, parent: Seq<char>) -> bool {
    parent.len() > 0 && (path == parent || has_at(path, 0, parent + seq!['/']))
}

/// Whether `path` is the folder `parent` itself or inside it.
pub fn is_descendant_path(path: &str, parent: &str) -> (r: bool)
    ensures
        r == is_descendant(path@, parent@),
{
    let p = chars_of(path);
    let mut q = chars_of(parent);
    if q.len() == 0 {
        return false;
    }
    if crate::text::chars_eq(&p, &q) {
        return true;
    }
    q.push('/');
    assert(q@ =~= parent@ + seq!['/']);
    crate::text::matches_at(&p, 0, &q)
}

/// The key under which a folder listing of a vault is cached: `vault_id:folder_path`.
pub fn folder_cache_key(vault_id: &str, folder_path: &str) -> (r: String)
    ensures
        r@ == vault_id@ + seq![':'] + folder_path@,
{
    let mut out = String::from_str(vault_id);
    push_char(&mut out, ':');
    let ghost mid = out@;
    assert(mid =~= vault_id@ + seq![':']);
    out.append(folder_path);
    assert(out@ == mid + folder_path@);
    out
}

/// The last segment of `s` that is neither empty nor `.`, as a path's file name.
pub open spec fn file_name_of(segs: Seq<Seq<char>>) -> Option<Seq<char>>
    decreases segs.len(),
{
    if segs.len() == 0 {
        None
    } else if segs.last().len() == 0 || (is_dot(segs.last()) && segs.len() > 1) {
        file_name_of(segs.drop_last())
    } else if is_dot(segs.last()) || is_dotdot(segs.last()) {
        None
    } else {
        Some(segs.last())
    }
}

/// Where an item lands when moved into `target_folder`: the folder, a `/`, and the
/// item's file name (just the file name at the vault root).
pub open spec fn move_target(target_folder: Seq<char>, source: Seq<char>) -> Option<Seq<char>> {
    match file_name_of(split_slash(source)) {
        Some(leaf) => if target_folder.len() == 0 {
            Some(leaf)
        } else {
            Some(target_folder + seq!['/'] + leaf)
        },
        None => None,
    }
}

/// The path that `source_path` gets when moved into `target_folder`; an error when
/// the source has no file name.
pub fn move_target_path(target_folder: &str, source_path: &str) -> (r: Result<String, String>)
    ensures
        r is Ok <==> move_target(target_folder@, source_path@) is Some,
        r matches Ok(p) ==> move_target(target_folder@, source_path@) == Some(p@),
{
    let parts = split_slash_chars(&chars_of(source_path));
    let mut n: usize = parts.len();
    assert(views(parts@).take(n as int) =~= views(parts@));
    while n > 0
        invariant
            n <= parts@.len(),
            views(parts@) == split_slash(source_path@),
            file_name_of(views(parts@).take(n as int)) == file_name_of(split_slash(source_path@)),
        decreases n,
    {
        let ghost t = views(parts@).take(n as int);
        assert(t.drop_last() =~= views(parts@).take(n - 1));
        assert(t.last() == parts@[n - 1]@);
        let seg = &parts[n - 1];
        let dot = seg.len() == 1 && seg[0] == '.';
        if seg.len() == 0 || (dot && n > 1) {
            n -= 1;
        } else if dot || (seg.len() == 2 && seg[0] == '.' && seg[1] == '.') {
            return Err(String::from_str("invalid source path"));
        } else {
            assert(file_name_of(t) == Some(seg@));
            let name = string_of(seg);
            if target_folder.is_empty() {
                return Ok(name);
            } else {
                let mut out = String::from_str(target_folder);
                push_char(&mut out, '/');
                let ghost mid = out@;
                out.append(name.as_str());
                assert(out@ == mid + name@);
                return Ok(out);
            }
        }
    }
    assert(views(parts@).take(0) =~= Seq::<Seq<char>>::empty());
    Err(String::from_str("invalid source path"))
}

/// A failed move of `path`.
pub fn move_failure(path: &str, new_path: String, error: String) -> (r: MoveItemResult)
    ensures
        r.path@ == path@,
        r.new_path@ == new_path@,
        !r.success,
        r.error matches Some(e) && e@ == error@,
{
    MoveItemResult { path: String::from_str(path), new_path, success: false, error: Some(error) }
}

/// A move of `path` to `new_path` that succeeded.
pub fn move_success(path: String, new_path: String) -> (r: MoveItemResult)
    ensures
        r.path@ == path@,
        r.new_path@ == new_path@,
        r.success,
        r.error is None,
{
    MoveItemResult { path, new_path, success: true, error: None }
}

/// Adds to `invalid_sources` every other item that lies inside `folder_path`: moving
/// a folder together with something inside it is refused.
pub fn collect_nested_move_sources(
    items: &Vec<MoveItem>,
    folder_path: &str,
    invalid_sources: &mut Vec<String>,
)
    ensures
        final(invalid_sources)@.len() >= old(invalid_sources)@.len(),
        final(invalid_sources)@.take(old(invalid_sources)@.len() as int) == old(invalid_sources)@,
        forall|j: int|
            old(invalid_sources)@.len() <= j < final(invalid_sources)@.len() ==> is_descendant(
                #[trigger] final(invalid_sources)@[j]@,
                folder_path@,
            ) && final(invalid_sources)@[j]@ != folder_path@,
        forall|k: int|
            0 <= k < items@.len() && items@[k].path@ != folder_path@ && is_descendant(
                items@[k].path@,
                folder_path@,
            ) ==> exists|j: int|
                old(invalid_sources)@.len() <= j < final(invalid_sources)@.len()
                    && (#[trigger] final(invalid_sources)@[j])@ == items@[k].path@,
{
    let ghost start = invalid_sources@;
    assert(invalid_sources@.take(start.len() as int) =~= start);
    let mut i: usize = 0;
    while i < items.len()
        invariant
            i <= items@.len(),
            invalid_sources@.len() >= start.len(),
            invalid_sources@.take(start.len() as int) == start,
            forall|j: int|
                start.len() <= j < invalid_sources@.len() ==> is_descendant(
                    #[trigger] invalid_sources@[j]@,
                    folder_path@,
                ) && invalid_sources@[j]@ != folder_path@,
            forall|k: int|
                0 <= k < i && items@[k].path@ != folder_path@ && is_descendant(
                    items@[k].path@,
                    folder_path@,
                ) ==> exists|j: int|
                    start.len() <= j < invalid_sources@.len()
                        && (#[trigger] invalid_sources@[j])@ == items@[k].path@,
        decreases items@.len() - i,
    {
        let p = items[i].path.as_str();
        if !crate::text::chars_eq(&chars_of(p), &chars_of(folder_path)) && is_descendant_path(p, folder_path) {
            let ghost before = invalid_sources@;
            invalid_sources.push(items[i].path.clone());
            assert(invalid_sources@[before.len() as int]@ == items@[i as int].path@);
            assert(invalid_sources@.take(start.len() as int) =~= before.take(start.len() as int));
            assert forall|k: int|
                0 <= k < i + 1 && items@[k].path@ != folder_path@ && is_descendant(
                    items@[k].path@,
                    folder_path@,
                ) implies exists|j: int|
                    start.len() <= j < invalid_sources@.len()
                        && (#[trigger] invalid_sources@[j])@ == items@[k].path@ by {
                if k < i {
                    let j0 = choose|j: int| start.len() <= j < before.len() && (#[trigger] before[j])@ == items@[k].path@;
                    assert(invalid_sources@[j0] == before[j0]);
                } else {
                    assert(invalid_sources@[before.len() as int]@ == items@[k].path@);
                }
            }
        }
        i += 1;
    }
}


/// An ASCII letter in lower case; other characters as they are.
pub open spec fn ascii_lower(c: char) -> char {
    if 'A' <= c <= 'Z' {
        ((c as u32 + 32) as u8) as char
    } else {
        c
    }
}

/// An ASCII letter in lower case; other characters unchanged.
pub fn to_ascii_lower(c: char) -> (r: char)
    ensures
        r == ascii_lower(c),
{
    if 'A' <= c && c <= 'Z' {
        ((c as u32 + 32) as u8) as char
    } else {
        c
    }
}

/// A character kept in an image file stem.
pub open spec fn stem_char(c: char) -> bool {
    ('a' <= c <= 'z') || ('A' <= c <= 'Z') || ('0' <= c <= '9') || c == '_' || c == '-'
}

/// The stem before trimming: kept characters in lower case, each run of others as
/// one `-`.
pub open spec fn stem_draft(s: Seq<char>) -> Seq<char>
    decreases s.len(),
{
    if s.len() == 0 {
        s
    } else {
        let d = stem_draft(s.drop_last());
        if stem_char(s.last()) {
            d.push(ascii_lower(s.last()))
        } else if d.len() > 0 && d.last() == '-' {
            d
        } else {
            d.push('-')
        }
    }
}

/// `s` without leading and trailing `-`.
pub open spec fn trim_dashes(s: Seq<char>) -> Seq<char>
    decreases s.len(),
{
    if s.len() == 0 {
        s
    } else if s[0] == '-' {
        trim_dashes(s.drop_first())
    } else if s.last() == '-' {
        trim_dashes(s.drop_last())
    } else {
        s
    }
}

pub open spec fn image_word() -> Seq<char> {
    seq!['i', 'm', 'a', 'g', 'e']
}

/// A file stem for a pasted image: ASCII letters and digits in lower case, `_` and
/// `-` kept, every other run of characters one `-`, no `-` at either end; `image`
/// when nothing is left.
pub fn sanitize_stem(value: &str) -> (r: String)
    ensures
        trim_dashes(stem_draft(value@)).len() > 0 ==> r@ == trim_dashes(stem_draft(value@)),
        trim_dashes(stem_draft(value@)).len() == 0 ==> r@ == image_word(),
{
    let v = chars_of(value);
    let mut out: Vec<char> = Vec::new();
    let mut i: usize = 0;
    assert(v@.take(0) =~= Seq::<char>::empty());
    while i < v.len()
        invariant
            i <= v.len(),
            out@ == stem_draft(v@.take(i as int)),
        decreases v.len() - i,
    {
        assert(v@.take(i + 1).drop_last() =~= v@.take(i as int));
        assert(v@.take(i + 1).last() == v@[i as int]);
        let c = v[i];
        if ('a' <= c && c <= 'z') || ('A' <= c && c <= 'Z') || ('0' <= c && c <= '9') || c == '_'
            || c == '-' {
            out.push(to_ascii_lower(c));
        } else if !(out.len() > 0 && out[out.len() - 1] == '-') {
            out.push('-');
        }
        i += 1;
    }
    assert(v@.take(i as int) =~= v@);
    let mut lo: usize = 0;
    let mut hi: usize = out.len();
    assert(out@.subrange(0, out@.len() as int) =~= out@);
    while lo < hi && (out[lo] == '-' || out[hi - 1] == '-')
        invariant
            lo <= hi <= out@.len(),
            trim_dashes(out@.subrange(lo as int, hi as int)) == trim_dashes(out@),
        decreases hi - lo,
    {
        let ghost sub = out@.subrange(lo as int, hi as int);
        if out[lo] == '-' {
            assert(sub.drop_first() =~= out@.subrange(lo + 1, hi as int));
            lo += 1;
        } else {
            assert(sub.drop_last() =~= out@.subrange(lo as int, hi - 1));
            hi -= 1;
        }
    }
    assert(trim_dashes(out@.subrange(lo as int, hi as int)) == out@.subrange(lo as int, hi as int));
    if lo == hi {
        let w: Vec<char> = vec!['i', 'm', 'a', 'g', 'e'];
        string_of(&w)
    } else {
        string_of(&slice_chars(&out, lo, hi))
    }
}

/// The extension of a file name as `Path::extension` gives it: what follows the
/// last `.` of the leaf, unless the leaf has no `.` but at its start.
pub open spec fn extension_of(name: Seq<char>) -> Option<Seq<char>> {
    let leaf = leaf_of(name);
    let k = last_dot(leaf);
    if k <= 0 {
        None
    } else {
        Some(leaf.skip(k + 1))
    }
}

/// Position of the last `.` in `s`, or -1.
pub open spec fn last_dot(s: Seq<char>) -> int
    decreases s.len(),
{
    if s.len() == 0 {
        -1
    } else if s.last() == '.' {
        s.len() - 1
    } else {
        last_dot(s.drop_last())
    }
}

pub open spec fn lower_all(s: Seq<char>) -> Seq<char> {
    s.map_values(|c: char| ascii_lower(c))
}

/// The extension named by a MIME type of an image, `png` for any other.
pub open spec fn mime_extension(mime: Seq<char>) -> Seq<char> {
    let m = lower_all(mime);
    if m == seq!['i', 'm', 'a', 'g', 'e', '/', 'j', 'p', 'e', 'g'] {
        seq!['j', 'p', 'g']
    } else if m == seq!['i', 'm', 'a', 'g', 'e', '/', 'g', 'i', 'f'] {
        seq!['g', 'i', 'f']
    } else if m == seq!['i', 'm', 'a', 'g', 'e', '/', 'w', 'e', 'b', 'p'] {
        seq!['w', 'e', 'b', 'p']
    } else if m == seq!['i', 'm', 'a', 'g', 'e', '/', 'b', 'm', 'p'] {
        seq!['b', 'm', 'p']
    } else if m == seq!['i', 'm', 'a', 'g', 'e', '/', 's', 'v', 'g', '+', 'x', 'm', 'l'] {
        seq!['s', 'v', 'g']
    } else {
        seq!['p', 'n', 'g']
    }
}

fn lower_chars(v: &Vec<char>) -> (r: Vec<char>)
    ensures
        r@ == lower_all(v@),
{
    let mut out: Vec<char> = Vec::new();
    let mut i: usize = 0;
    while i < v.len()
        invariant
            i <= v.len(),
            out@ == lower_all(v@.take(i as int)),
        decreases v.len() - i,
    {
        out.push(to_ascii_lower(v[i]));
        i += 1;
        assert(out@ =~= lower_all(v@.take(i as int)));
    }
    assert(v@.take(i as int) =~= v@);
    out
}

fn last_dot_index(v: &Vec<char>) -> (r: Option<usize>)
    ensures
        match r {
            Some(i) => last_dot(v@) == i as int,
            None => last_dot(v@) == -1,
        },
{
    let mut n: usize = v.len();
    assert(v@.take(n as int) =~= v@);
    while n > 0
        invariant
            n <= v@.len(),
            last_dot(v@) == last_dot(v@.take(n as int)),
        decreases n,
    {
        assert(v@.take(n as int).drop_last() =~= v@.take(n - 1));
        assert(v@.take(n as int).last() == v@[n - 1]);
        if v[n - 1] == '.' {
            return Some(n - 1);
        }
        n -= 1;
    }
    assert(v@.take(0) =~= Seq::<char>::empty());
    None
}

/// The extension for a pasted image: the file name's own extension in lower case
/// when it has a non-empty one, else the one its MIME type names.
pub fn image_extension(mime_type: &str, file_name: Option<&str>) -> (r: String)
    ensures
        ({
            let from_name = match file_name {
                Some(n) => match extension_of(n@) {
                    Some(e) => if e.len() > 0 {
                        Some(lower_all(e))
                    } else {
                        None
                    },
                    None => None,
                },
                None => None,
            };
            match from_name {
                Some(e) => r@ == e,
                None => r@ == mime_extension(mime_type@),
            }
        }),
{
    match file_name {
        Some(n) => {
            let v = chars_of(n);
            proof {
                lemma_last_slash(v@);
            }
            let start: usize = match crate::paths::last_slash_index_pub(&v) {
                Some(i) => i + 1,
                None => 0,
            };
            let leaf = slice_chars(&v, start, v.len());
            assert(leaf@ =~= leaf_of(v@));
            proof {
                lemma_last_dot(leaf@);
            }
            match last_dot_index(&leaf) {
                Some(k) => {
                    if k > 0 && k + 1 < leaf.len() {
                        let e = slice_chars(&leaf, k + 1, leaf.len());
                        assert(e@ =~= leaf@.skip(k + 1));
                        return string_of(&lower_chars(&e));
                    }
                    assert(k > 0 ==> leaf@.skip(k + 1).len() == 0);
                },
                None => {},
            }
        },
        None => {},
    }
    let m = lower_chars(&chars_of(mime_type));
    let jpeg: Vec<char> = vec!['i', 'm', 'a', 'g', 'e', '/', 'j', 'p', 'e', 'g'];
    let gif: Vec<char> = vec!['i', 'm', 'a', 'g', 'e', '/', 'g', 'i', 'f'];
    let webp: Vec<char> = vec!['i', 'm', 'a', 'g', 'e', '/', 'w', 'e', 'b', 'p'];
    let bmp: Vec<char> = vec!['i', 'm', 'a', 'g', 'e', '/', 'b', 'm', 'p'];
    let svg: Vec<char> = vec!['i', 'm', 'a', 'g', 'e', '/', 's', 'v', 'g', '+', 'x', 'm', 'l'];
    let ext: Vec<char> = if crate::text::chars_eq(&m, &jpeg) {
        vec!['j', 'p', 'g']
    } else if crate::text::chars_eq(&m, &gif) {
        vec!['g', 'i', 'f']
    } else if crate::text::chars_eq(&m, &webp) {
        vec!['w', 'e', 'b', 'p']
    } else if crate::text::chars_eq(&m, &bmp) {
        vec!['b', 'm', 'p']
    } else if crate::text::chars_eq(&m, &svg) {
        vec!['s', 'v', 'g']
    } else {
        vec!['p', 'n', 'g']
    };
    string_of(&ext)
}

/// The first line of `s` from position `p` on that is not blank, trimmed.
pub open spec fn first_content_line(s: Seq<char>, p: int) -> Option<Seq<char>>
    decreases s.len() - p,
{
    if p < 0 || p > s.len() {
        None
    } else {
        let e = match crate::scan::find_off(s, p, '\n') {
            Some(d) => p + d,
            None => s.len() as int,
        };
        let line = crate::text::trim(s.subrange(p, e));
        if line.len() > 0 {
            Some(line)
        } else if e < s.len() {
            first_content_line(s, e + 1)
        } else {
            None
        }
    }
}

pub open spec fn heading_mark() -> Seq<char> {
    seq!['#', ' ']
}

/// The title of a note: its first non-blank line without a leading `# `, when that
/// line is such a heading with text; else the file stem.
pub open spec fn title_of(text: Seq<char>, stem: Seq<char>) -> Seq<char> {
    match first_content_line(text, 0) {
        Some(l) => if has_at(l, 0, heading_mark()) && crate::text::trim(l.skip(2)).len() > 0 {
            crate::text::trim(l.skip(2))
        } else {
            stem
        },
        None => stem,
    }
}

fn first_content_line_exec(v: &Vec<char>) -> (r: Option<Vec<char>>)
    ensures
        match r {
            Some(l) => first_content_line(v@, 0) == Some(l@),
            None => first_content_line(v@, 0) is None,
        },
{
    let mut p: usize = 0;
    while p <= v.len()
        invariant
            p <= v@.len() + 1,
            first_content_line(v@, 0) == first_content_line(v@, p as int),
        decreases v@.len() + 1 - p,
    {
        let e: usize = match crate::scan::find_char(v, p, '\n') {
            Some(j) => j,
            None => v.len(),
        };
        let line = crate::text::trim_chars(&slice_chars(v, p, e));
        if line.len() > 0 {
            return Some(line);
        }
        if e >= v.len() {
            return None;
        }
        p = e + 1;
    }
    None
}

/// The title of a note from the start of its text and its file stem.
pub fn title_from_text(text: &str, stem: &str) -> (r: String)
    ensures
        r@ == title_of(text@, stem@),
{
    let v = chars_of(text);
    let stem_s = String::from_str(stem);
    match first_content_line_exec(&v) {
        Some(l) => {
            let mark: Vec<char> = vec!['#', ' '];
            if crate::text::matches_at(&l, 0, &mark) {
                let rest = crate::text::trim_chars(&slice_chars(&l, 2, l.len()));
                assert(l@.subrange(2, l@.len() as int) =~= l@.skip(2));
                if rest.len() > 0 {
                    return string_of(&rest);
                }
            }
            stem_s
        },
        None => stem_s,
    }
}

proof fn lemma_last_dot(s: Seq<char>)
    ensures
        -1 <= last_dot(s) < s.len(),
    decreases s.len(),
{
    if s.len() > 0 && s.last() != '.' {
        lemma_last_dot(s.drop_last());
    }
}

} // verus!
