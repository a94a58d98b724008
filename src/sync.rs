//! Planning a sync: comparing what the index holds with what is on disk.
use vstd::prelude::*;

verus! {

/// What the index holds for one note: its path, and the modification time and
/// size that were indexed.
#[derive(Debug, Clone, PartialEq, Eq)]
pub struct ManifestEntry {
    pub path: String,
    pub mtime_ms: i64,
    pub size_bytes: i64,
}

/// A markdown file found on disk: its vault path, and its modification time and
/// size when they could be read.
#[derive(Debug, Clone, PartialEq, Eq)]
pub struct DiskFile {
    pub path: String,
    pub meta: Option<(i64, i64)>,
}

/// The work a sync has to do.
#[derive(Debug, Clone, PartialEq, Eq)]
pub struct SyncPlan {
    pub added: Vec<String>,
    pub modified: Vec<String>,
    pub removed: Vec<String>,
    pub unchanged: usize,
}

/// How far an index run got.
#[derive(Debug, Clone, Copy, PartialEq, Eq)]
pub struct IndexResult {
    pub total: usize,
    pub indexed: usize,
}

pub type Manifest = Seq<(Seq<char>, (i64, i64))>;

pub type Disk = Seq<(Seq<char>, Option<(i64, i64)>)>;

/// The manifest entries as (path, (time, size)).
pub open spec fn manifest_view(m: Seq<ManifestEntry>) -> Manifest {
    m.map_values(|e: ManifestEntry| (e.path@, (e.mtime_ms, e.size_bytes)))
}

/// The files on disk as (path, metadata).
pub open spec fn disk_view(d: Seq<DiskFile>) -> Disk {
    d.map_values(|f: DiskFile| (f.path@, f.meta))
}

/// What the manifest holds for `p` (its first entry for `p`).
pub open spec fn mget(m: Manifest, p: Seq<char>) -> Option<(i64, i64)>
    decreases m.len(),
{
    if m.len() == 0 {
        None
    } else if m[0].0 == p {
        Some(m[0].1)
    } else {
        mget(m.drop_first(), p)
    }
}

/// Whether some file on disk has the path `p`.
pub open spec fn on_disk(d: Disk, p: Seq<char>) -> bool {
    exists|i: int| 0 <= i < d.len() && (#[trigger] d[i]).0 == p
}

pub open spec fn is_added(m: Manifest, f: (Seq<char>, Option<(i64, i64)>)) -> bool {
    mget(m, f.0) is None
}

pub open spec fn is_unchanged(m: Manifest, f: (Seq<char>, Option<(i64, i64)>)) -> bool {
    mget(m, f.0) is Some && f.1 == Some(mget(m, f.0)->0)
}

pub open spec fn is_modified(m: Manifest, f: (Seq<char>, Option<(i64, i64)>)) -> bool {
    mget(m, f.0) is Some && f.1 != Some(mget(m, f.0)->0)
}

/// The paths of the files on disk that the manifest lacks, in disk order.
pub open spec fn added_of(m: Manifest, d: Disk) -> Seq<Seq<char>>
    decreases d.len(),
{
    if d.len() == 0 {
        Seq::empty()
    } else if is_added(m, d.last()) {
        added_of(m, d.drop_last()).push(d.last().0)
    } else {
        added_of(m, d.drop_last())
    }
}

/// The paths of the files whose time or size differ from the manifest, or could not
/// be read.
pub open spec fn modified_of(m: Manifest, d: Disk) -> Seq<Seq<char>>
    decreases d.len(),
{
    if d.len() == 0 {
        Seq::empty()
    } else if is_modified(m, d.last()) {
        modified_of(m, d.drop_last()).push(d.last().0)
    } else {
        modified_of(m, d.drop_last())
    }
}

/// The paths of the files that match the manifest exactly.
pub open spec fn unchanged_of(m: Manifest, d: Disk) -> Seq<Seq<char>>
    decreases d.len(),
{
    if d.len() == 0 {
        Seq::empty()
    } else if is_unchanged(m, d.last()) {
        unchanged_of(m, d.drop_last()).push(d.last().0)
    } else {
        unchanged_of(m, d.drop_last())
    }
}

/// The manifest paths with no file on disk, in manifest order.
pub open spec fn removed_of(m: Manifest, d: Disk) -> Seq<Seq<char>>
    decreases m.len(),
{
    if m.len() == 0 {
        Seq::empty()
    } else if !on_disk(d, m.last().0) {
        removed_of(m.drop_last(), d).push(m.last().0)
    } else {
        removed_of(m.drop_last(), d)
    }
}

/// The texts of a sequence of strings.
/// No two manifest entries share a path: the manifest is a map from path.
pub open spec fn unique_manifest(m: Manifest) -> bool {
    forall|i: int, j: int| 0 <= i < m.len() && 0 <= j < m.len() && (#[trigger] m[i]).0 == (#[trigger] m[j]).0 ==> i == j
}

/// Whether no two entries of `manifest` share a path.
pub fn manifest_is_unique(manifest: &Vec<ManifestEntry>) -> (r: bool)
    ensures
        r == unique_manifest(manifest_view(manifest@)),
{
    let ghost m = manifest_view(manifest@);
    let mut i: usize = 0;
    while i < manifest.len()
        invariant
            i <= manifest.len(),
            m == manifest_view(manifest@),
            forall|a: int, b: int| 0 <= a < i && 0 <= b < m.len() && (#[trigger] m[a]).0 == (#[trigger] m[b]).0 ==> a == b,
        decreases manifest.len() - i,
    {
        let mut j: usize = 0;
        while j < manifest.len()
            invariant
                i < manifest.len(),
                j <= manifest.len(),
                m == manifest_view(manifest@),
                forall|a: int, b: int| 0 <= a < i && 0 <= b < m.len() && (#[trigger] m[a]).0 == (#[trigger] m[b]).0 ==> a == b,
                forall|b: int| 0 <= b < j && m[i as int].0 == (#[trigger] m[b]).0 ==> i == b,
            decreases manifest.len() - j,
        {
            if i != j && manifest[i].path == manifest[j].path {
                assert(m[i as int].0 == m[j as int].0);
                return false;
            }
            j += 1;
        }
        i += 1;
    }
    true
}

/// How many notes a sync has to write or remove: added, modified and removed.
pub open spec fn work_of(plan: SyncPlan) -> int {
    (plan.added@.len() + plan.modified@.len() + plan.removed@.len()) as int
}

/// The work of a plan, or `None` when it does not fit a `usize`.
pub fn plan_work(plan: &SyncPlan) -> (r: Option<usize>)
    ensures
        r matches Some(w) ==> w == work_of(*plan),
        r is None <==> work_of(*plan) > usize::MAX,
{
    let a = plan.added.len();
    let m = plan.modified.len();
    let d = plan.removed.len();
    if a > usize::MAX - m || a + m > usize::MAX - d {
        None
    } else {
        Some(a + m + d)
    }
}

/// Whether a sync goes on to its upserts: only once every removal was applied (a
/// cancelled removal phase ends the run).
pub fn removals_finished(plan: &SyncPlan, removed_done: usize) -> (r: bool)
    ensures
        r == (removed_done == plan.removed@.len()),
{
    removed_done == plan.removed.len()
}

/// What a sync reports: with nothing to do, the unchanged files as the total and
/// nothing indexed; else the work plus the unchanged files as the total, and the
/// removals and upserts done as indexed. `None` when the sums do not fit a `usize`.
pub fn sync_result(work: usize, unchanged: usize, removed_done: usize, upserted_done: usize) -> (r:
    Option<IndexResult>)
    ensures
        work == 0 ==> r == Some(IndexResult { total: unchanged, indexed: 0 }),
        work > 0 ==> (r is None <==> (work + unchanged > usize::MAX || removed_done + upserted_done
            > usize::MAX)),
        work > 0 ==> (r matches Some(res) ==> res.total == work + unchanged && res.indexed
            == removed_done + upserted_done),
{
    if work == 0 {
        return Some(IndexResult { total: unchanged, indexed: 0 });
    }
    if work > usize::MAX - unchanged || removed_done > usize::MAX - upserted_done {
        return None;
    }
    Some(IndexResult { total: work + unchanged, indexed: removed_done + upserted_done })
}

pub open spec fn strs(v: Seq<String>) -> Seq<Seq<char>> {
    v.map_values(|x: String| x@)
}

fn manifest_get(manifest: &Vec<ManifestEntry>, p: &String) -> (r: Option<(i64, i64)>)
    ensures
        r == mget(manifest_view(manifest@), p@),
{
    let ghost m = manifest_view(manifest@);
    let mut i: usize = 0;
    assert(m.skip(0) =~= m);
    while i < manifest.len()
        invariant
            i <= manifest.len(),
            m == manifest_view(manifest@),
            mget(m, p@) == mget(m.skip(i as int), p@),
        decreases manifest.len() - i,
    {
        assert(m.skip(i as int)[0] == m[i as int]);
        assert(m.skip(i as int).drop_first() =~= m.skip(i + 1));
        if manifest[i].path == *p {
            return Some((manifest[i].mtime_ms, manifest[i].size_bytes));
        }
        i += 1;
    }
    None
}

fn disk_has(disk: &Vec<DiskFile>, p: &String) -> (r: bool)
    ensures
        r == on_disk(disk_view(disk@), p@),
{
    let mut i: usize = 0;
    while i < disk.len()
        invariant
            i <= disk.len(),
            forall|j: int| 0 <= j < i ==> disk@[j].path@ != p@,
        decreases disk.len() - i,
    {
        if disk[i].path == *p {
            assert(disk_view(disk@)[i as int].0 == p@);
            return true;
        }
        i += 1;
    }
    assert forall|j: int| 0 <= j < disk_view(disk@).len() implies (#[trigger] disk_view(disk@)[j]).0 != p@ by {
        assert(disk_view(disk@)[j].0 == disk@[j].path@);
    }
    false
}

/// Sorts the files on disk against the manifest: a path the manifest lacks is
/// added; one whose time and size both match is unchanged; any other (also one whose
/// metadata could not be read) is modified. Manifest paths with no file on disk are
/// removed. Each list keeps the order of its source.
pub fn compute_sync_plan(manifest: &Vec<ManifestEntry>, disk_files: &Vec<DiskFile>) -> (r: SyncPlan)
    requires
        unique_manifest(manifest_view(manifest@)),
    ensures
        strs(r.added@) == added_of(manifest_view(manifest@), disk_view(disk_files@)),
        strs(r.modified@) == modified_of(manifest_view(manifest@), disk_view(disk_files@)),
        r.unchanged == unchanged_of(manifest_view(manifest@), disk_view(disk_files@)).len(),
        strs(r.removed@) == removed_of(manifest_view(manifest@), disk_view(disk_files@)),
{
    let ghost m = manifest_view(manifest@);
    let ghost d = disk_view(disk_files@);
    let mut added: Vec<String> = Vec::new();
    let mut modified: Vec<String> = Vec::new();
    let mut unchanged: usize = 0;
    let mut i: usize = 0;
    assert(d.take(0) =~= Seq::<(Seq<char>, Option<(i64, i64)>)>::empty());
    assert(strs(added@) =~= Seq::<Seq<char>>::empty());
    assert(strs(modified@) =~= Seq::<Seq<char>>::empty());
    while i < disk_files.len()
        invariant
            i <= disk_files.len(),
            m == manifest_view(manifest@),
            d == disk_view(disk_files@),
            strs(added@) == added_of(m, d.take(i as int)),
            strs(modified@) == modified_of(m, d.take(i as int)),
            unchanged == unchanged_of(m, d.take(i as int)).len(),
            unchanged <= i,
        decreases disk_files.len() - i,
    {
        let f = &disk_files[i];
        assert(d.take(i + 1).drop_last() =~= d.take(i as int));
        assert(d.take(i + 1).last() == (f.path@, f.meta));
        match manifest_get(manifest, &f.path) {
            None => {
                let ghost before = added@;
                added.push(f.path.clone());
                assert(strs(added@) =~= strs(before).push(f.path@));
            },
            Some(meta) => {
                if f.meta == Some(meta) {
                    unchanged += 1;
                } else {
                    let ghost before = modified@;
                    modified.push(f.path.clone());
                    assert(strs(modified@) =~= strs(before).push(f.path@));
                }
            },
        }
        i += 1;
    }
    assert(d.take(i as int) =~= d);
    let mut removed: Vec<String> = Vec::new();
    let mut j: usize = 0;
    assert(m.take(0) =~= Seq::<(Seq<char>, (i64, i64))>::empty());
    assert(strs(removed@) =~= Seq::<Seq<char>>::empty());
    while j < manifest.len()
        invariant
            j <= manifest.len(),
            m == manifest_view(manifest@),
            d == disk_view(disk_files@),
            strs(removed@) == removed_of(m.take(j as int), d),
        decreases manifest.len() - j,
    {
        assert(m.take(j + 1).drop_last() =~= m.take(j as int));
        assert(m.take(j + 1).last() == m[j as int]);
        if !disk_has(disk_files, &manifest[j].path) {
            let ghost before = removed@;
            removed.push(manifest[j].path.clone());
            assert(strs(removed@) =~= strs(before).push(manifest@[j as int].path@));
        }
        j += 1;
    }
    assert(m.take(j as int) =~= m);
    SyncPlan { added, modified, removed, unchanged }
}


/// Whether the manifest has an entry for `p`.
pub open spec fn in_manifest(m: Manifest, p: Seq<char>) -> bool {
    exists|i: int| 0 <= i < m.len() && (#[trigger] m[i]).0 == p
}

/// No two files on disk share a path.
pub open spec fn unique_paths(d: Disk) -> bool {
    forall|i: int, j: int| 0 <= i < d.len() && 0 <= j < d.len() && (#[trigger] d[i]).0 == (#[trigger] d[j]).0 ==> i == j
}

proof fn lemma_mget_some(m: Manifest, p: Seq<char>)
    ensures
        mget(m, p) is Some <==> in_manifest(m, p),
    decreases m.len(),
{
    if m.len() > 0 {
        lemma_mget_some(m.drop_first(), p);
        if in_manifest(m, p) && m[0].0 != p {
            let i = choose|i: int| 0 <= i < m.len() && (#[trigger] m[i]).0 == p;
            assert(m.drop_first()[i - 1].0 == p);
        }
        if in_manifest(m.drop_first(), p) {
            let i = choose|i: int| 0 <= i < m.drop_first().len() && (#[trigger] m.drop_first()[i]).0 == p;
            assert(m[i + 1].0 == p);
        }
        if m[0].0 == p {
            assert(m[0].0 == p);
        }
    }
}

/// A path is among the files of `d` of one class exactly when some file of `d`
/// with that path is of that class.
proof fn lemma_class_mem(m: Manifest, d: Disk, p: Seq<char>)
    ensures
        added_of(m, d).contains(p) <==> exists|i: int| 0 <= i < d.len() && (#[trigger] d[i]).0 == p && is_added(m, d[i]),
        modified_of(m, d).contains(p) <==> exists|i: int| 0 <= i < d.len() && (#[trigger] d[i]).0 == p && is_modified(m, d[i]),
        unchanged_of(m, d).contains(p) <==> exists|i: int| 0 <= i < d.len() && (#[trigger] d[i]).0 == p && is_unchanged(m, d[i]),
    decreases d.len(),
{
    if d.len() > 0 {
        let init = d.drop_last();
        lemma_class_mem(m, init, p);
        assert forall|i: int| 0 <= i < init.len() implies init[i] == d[i] by {}
        if exists|i: int| 0 <= i < d.len() && (#[trigger] d[i]).0 == p && is_added(m, d[i]) {
            let i = choose|i: int| 0 <= i < d.len() && (#[trigger] d[i]).0 == p && is_added(m, d[i]);
            if i < d.len() - 1 {
                assert(init[i].0 == p && is_added(m, init[i]));
            }
        }
        if exists|i: int| 0 <= i < d.len() && (#[trigger] d[i]).0 == p && is_modified(m, d[i]) {
            let i = choose|i: int| 0 <= i < d.len() && (#[trigger] d[i]).0 == p && is_modified(m, d[i]);
            if i < d.len() - 1 {
                assert(init[i].0 == p && is_modified(m, init[i]));
            }
        }
        if exists|i: int| 0 <= i < d.len() && (#[trigger] d[i]).0 == p && is_unchanged(m, d[i]) {
            let i = choose|i: int| 0 <= i < d.len() && (#[trigger] d[i]).0 == p && is_unchanged(m, d[i]);
            if i < d.len() - 1 {
                assert(init[i].0 == p && is_unchanged(m, init[i]));
            }
        }
        if added_of(m, init).contains(p) {
            let i = choose|i: int| 0 <= i < init.len() && (#[trigger] init[i]).0 == p && is_added(m, init[i]);
            assert(d[i].0 == p && is_added(m, d[i]));
        }
        if modified_of(m, init).contains(p) {
            let i = choose|i: int| 0 <= i < init.len() && (#[trigger] init[i]).0 == p && is_modified(m, init[i]);
            assert(d[i].0 == p && is_modified(m, d[i]));
        }
        if unchanged_of(m, init).contains(p) {
            let i = choose|i: int| 0 <= i < init.len() && (#[trigger] init[i]).0 == p && is_unchanged(m, init[i]);
            assert(d[i].0 == p && is_unchanged(m, d[i]));
        }
        let l = d.len() - 1;
        assert(d.last() == d[l]);
        if d.last().0 == p {
            assert(added_of(m, d).contains(p) == (added_of(m, init).contains(p) || is_added(m, d[l]))) by {
                if is_added(m, d.last()) {
                    assert(added_of(m, d) == added_of(m, init).push(p));
                    assert(added_of(m, d)[added_of(m, init).len() as int] == p);
                }
            }
            assert(modified_of(m, d).contains(p) == (modified_of(m, init).contains(p) || is_modified(m, d[l]))) by {
                if is_modified(m, d.last()) {
                    assert(modified_of(m, d)[modified_of(m, init).len() as int] == p);
                }
            }
            assert(unchanged_of(m, d).contains(p) == (unchanged_of(m, init).contains(p) || is_unchanged(m, d[l]))) by {
                if is_unchanged(m, d.last()) {
                    assert(unchanged_of(m, d)[unchanged_of(m, init).len() as int] == p);
                }
            }
        } else {
            assert(added_of(m, d).contains(p) == added_of(m, init).contains(p)) by {
                if is_added(m, d.last()) {
                    let a = added_of(m, init);
                    if added_of(m, d).contains(p) {
                        let k = choose|k: int| 0 <= k < added_of(m, d).len() && added_of(m, d)[k] == p;
                        assert(k < a.len());
                        assert(a[k] == p);
                    }
                    if a.contains(p) {
                        let k = choose|k: int| 0 <= k < a.len() && a[k] == p;
                        assert(added_of(m, d)[k] == p);
                    }
                }
            }
            assert(modified_of(m, d).contains(p) == modified_of(m, init).contains(p)) by {
                if is_modified(m, d.last()) {
                    let a = modified_of(m, init);
                    if modified_of(m, d).contains(p) {
                        let k = choose|k: int| 0 <= k < modified_of(m, d).len() && modified_of(m, d)[k] == p;
                        assert(k < a.len());
                        assert(a[k] == p);
                    }
                    if a.contains(p) {
                        let k = choose|k: int| 0 <= k < a.len() && a[k] == p;
                        assert(modified_of(m, d)[k] == p);
                    }
                }
            }
            assert(unchanged_of(m, d).contains(p) == unchanged_of(m, init).contains(p)) by {
                if is_unchanged(m, d.last()) {
                    let a = unchanged_of(m, init);
                    if unchanged_of(m, d).contains(p) {
                        let k = choose|k: int| 0 <= k < unchanged_of(m, d).len() && unchanged_of(m, d)[k] == p;
                        assert(k < a.len());
                        assert(a[k] == p);
                    }
                    if a.contains(p) {
                        let k = choose|k: int| 0 <= k < a.len() && a[k] == p;
                        assert(unchanged_of(m, d)[k] == p);
                    }
                }
            }
        }
    }
}

/// A path is removed exactly when the manifest has it and no file on disk does.
proof fn lemma_removed_mem(m: Manifest, d: Disk, p: Seq<char>)
    ensures
        removed_of(m, d).contains(p) <==> (in_manifest(m, p) && !on_disk(d, p)),
    decreases m.len(),
{
    if m.len() > 0 {
        let init = m.drop_last();
        lemma_removed_mem(init, d, p);
        let r0 = removed_of(init, d);
        if in_manifest(m, p) {
            let i = choose|i: int| 0 <= i < m.len() && (#[trigger] m[i]).0 == p;
            if i < m.len() - 1 {
                assert(init[i].0 == p);
            }
        }
        if in_manifest(init, p) {
            let i = choose|i: int| 0 <= i < init.len() && (#[trigger] init[i]).0 == p;
            assert(m[i].0 == p);
        }
        assert(m[m.len() - 1] == m.last());
        if !on_disk(d, m.last().0) {
            assert(removed_of(m, d) == r0.push(m.last().0));
            assert(removed_of(m, d)[r0.len() as int] == m.last().0);
            if removed_of(m, d).contains(p) && p != m.last().0 {
                let k = choose|k: int| 0 <= k < removed_of(m, d).len() && removed_of(m, d)[k] == p;
                assert(r0[k] == p);
            }
            if r0.contains(p) {
                let k = choose|k: int| 0 <= k < r0.len() && r0[k] == p;
                assert(removed_of(m, d)[k] == p);
            }
        }
    }
}

/// A sync plan sorts every path of the manifest or the disk into exactly one of
/// added, modified, removed and unchanged, and names no other path.
pub proof fn lemma_sync_plan_partition(m: Manifest, d: Disk, p: Seq<char>)
    requires
        unique_paths(d),
    ensures
        (in_manifest(m, p) || on_disk(d, p)) <==> (added_of(m, d).contains(p) || modified_of(m, d).contains(p)
            || removed_of(m, d).contains(p) || unchanged_of(m, d).contains(p)),
        !(added_of(m, d).contains(p) && modified_of(m, d).contains(p)),
        !(added_of(m, d).contains(p) && removed_of(m, d).contains(p)),
        !(added_of(m, d).contains(p) && unchanged_of(m, d).contains(p)),
        !(modified_of(m, d).contains(p) && removed_of(m, d).contains(p)),
        !(modified_of(m, d).contains(p) && unchanged_of(m, d).contains(p)),
        !(removed_of(m, d).contains(p) && unchanged_of(m, d).contains(p)),
{
    lemma_class_mem(m, d, p);
    lemma_removed_mem(m, d, p);
    lemma_mget_some(m, p);
    if on_disk(d, p) {
        let i = choose|i: int| 0 <= i < d.len() && (#[trigger] d[i]).0 == p;
        assert forall|j: int| 0 <= j < d.len() && (#[trigger] d[j]).0 == p implies j == i by {}
        assert(is_added(m, d[i]) || is_modified(m, d[i]) || is_unchanged(m, d[i]));
    }
}

/// A sync right after a complete rebuild finds nothing to do: when the manifest
/// holds every file on disk with its time and size, and nothing else, nothing is
/// added, modified or removed.
pub proof fn lemma_sync_after_rebuild_is_empty(m: Manifest, d: Disk)
    requires
        forall|i: int| 0 <= i < d.len() ==> (#[trigger] d[i]).1 == mget(m, d[i].0) && d[i].1 is Some,
        forall|i: int| 0 <= i < m.len() ==> on_disk(d, (#[trigger] m[i]).0),
    ensures
        added_of(m, d).len() == 0,
        modified_of(m, d).len() == 0,
        removed_of(m, d).len() == 0,
    decreases d.len() + m.len(),
{
    lemma_no_added_modified(m, d);
    lemma_no_removed(m, d);
}

proof fn lemma_no_added_modified(m: Manifest, d: Disk)
    requires
        forall|i: int| 0 <= i < d.len() ==> (#[trigger] d[i]).1 == mget(m, d[i].0) && d[i].1 is Some,
    ensures
        added_of(m, d).len() == 0,
        modified_of(m, d).len() == 0,
    decreases d.len(),
{
    if d.len() > 0 {
        let init = d.drop_last();
        assert forall|i: int| 0 <= i < init.len() implies (#[trigger] init[i]).1 == mget(m, init[i].0) && init[i].1 is Some by {
            assert(init[i] == d[i]);
        }
        lemma_no_added_modified(m, init);
        assert(d[d.len() - 1] == d.last());
    }
}

proof fn lemma_no_removed(m: Manifest, d: Disk)
    requires
        forall|i: int| 0 <= i < m.len() ==> on_disk(d, (#[trigger] m[i]).0),
    ensures
        removed_of(m, d).len() == 0,
    decreases m.len(),
{
    if m.len() > 0 {
        let init = m.drop_last();
        assert forall|i: int| 0 <= i < init.len() implies on_disk(d, (#[trigger] init[i]).0) by {
            assert(init[i] == m[i]);
        }
        lemma_no_removed(init, d);
        assert(m[m.len() - 1] == m.last());
    }
}


/// The metadata of the file at `p` on disk.
pub open spec fn dget(d: Disk, p: Seq<char>) -> (i64, i64) {
    d[choose|i: int| 0 <= i < d.len() && (#[trigger] d[i]).0 == p].1->0
}

/// The files on disk as a map from path to (time, size).
pub open spec fn disk_map(d: Disk) -> Map<Seq<char>, (i64, i64)> {
    Map::new(|p: Seq<char>| on_disk(d, p), |p: Seq<char>| dget(d, p))
}

/// The manifest after a sync carried out its whole plan: removed paths gone, added
/// and modified files written with their metadata on disk, the rest kept.
pub open spec fn applied(m: Manifest, d: Disk) -> Map<Seq<char>, (i64, i64)> {
    Map::new(
        |p: Seq<char>|
            (in_manifest(m, p) && !removed_of(m, d).contains(p)) || added_of(m, d).contains(p)
                || modified_of(m, d).contains(p),
        |p: Seq<char>|
            if added_of(m, d).contains(p) || modified_of(m, d).contains(p) {
                dget(d, p)
            } else {
                mget(m, p)->0
            },
    )
}

/// A sync that runs its plan to the end, on files whose metadata could be read,
/// leaves a manifest equal to what is on disk; a rebuild is the case of the empty
/// manifest.
pub proof fn lemma_sync_converges(m: Manifest, d: Disk)
    requires
        unique_paths(d),
        forall|i: int| 0 <= i < d.len() ==> (#[trigger] d[i]).1 is Some,
    ensures
        applied(m, d) == disk_map(d),
{
    assert forall|p: Seq<char>| #[trigger] applied(m, d).contains_key(p) <==> disk_map(d).contains_key(p) by {
        lemma_class_mem(m, d, p);
        lemma_removed_mem(m, d, p);
        lemma_mget_some(m, p);
        if on_disk(d, p) {
            let i = choose|i: int| 0 <= i < d.len() && (#[trigger] d[i]).0 == p;
            assert(is_added(m, d[i]) || is_modified(m, d[i]) || is_unchanged(m, d[i]));
        }
    }
    assert forall|p: Seq<char>| #[trigger] applied(m, d).contains_key(p) implies applied(m, d)[p] == disk_map(d)[p] by {
        lemma_class_mem(m, d, p);
        lemma_removed_mem(m, d, p);
        lemma_mget_some(m, p);
        let i = choose|i: int| 0 <= i < d.len() && (#[trigger] d[i]).0 == p;
        assert(dget(d, p) == d[i].1->0);
        if !(added_of(m, d).contains(p) || modified_of(m, d).contains(p)) {
            assert(!is_added(m, d[i]) && !is_modified(m, d[i]));
            assert(is_unchanged(m, d[i]));
        }
    }
    assert(applied(m, d) =~= disk_map(d));
}

} // verus!
