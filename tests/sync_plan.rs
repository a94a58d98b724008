use jotter::sync::{
    compute_sync_plan, manifest_is_unique, plan_work, removals_finished, sync_result, DiskFile,
    IndexResult, ManifestEntry,
};

const BASE_MS: i64 = 1_700_000_000_000;

fn disk(path: &str, mtime_ms: i64, content: &str) -> DiskFile {
    DiskFile { path: path.to_string(), meta: Some((mtime_ms, content.len() as i64)) }
}

fn entry(path: &str, mtime_ms: i64, size_bytes: i64) -> ManifestEntry {
    ManifestEntry { path: path.to_string(), mtime_ms, size_bytes }
}

#[test]
fn search_db_empty_manifest_all_added() {
    let manifest: Vec<ManifestEntry> = Vec::new();
    let files = vec![disk("a.md", BASE_MS, "hello"), disk("b.md", BASE_MS, "world")];
    let plan = compute_sync_plan(&manifest, &files);

    assert_eq!(plan.added.len(), 2);
    assert!(plan.modified.is_empty());
    assert!(plan.removed.is_empty());
    assert_eq!(plan.unchanged, 0);
}

#[test]
fn search_db_behavior_empty_manifest_all_added() {
    let manifest: Vec<ManifestEntry> = Vec::new();
    let files = vec![disk("a.md", BASE_MS, "hello"), disk("b.md", BASE_MS, "world")];
    let plan = compute_sync_plan(&manifest, &files);

    assert_eq!(plan.added.len(), 2);
    assert!(plan.modified.is_empty());
    assert!(plan.removed.is_empty());
    assert_eq!(plan.unchanged, 0);
}

#[test]
fn all_in_manifest_nothing_on_disk() {
    let manifest = vec![entry("a.md", 1000, 5), entry("b.md", 2000, 5)];
    let plan = compute_sync_plan(&manifest, &Vec::new());

    assert!(plan.added.is_empty());
    assert!(plan.modified.is_empty());
    assert_eq!(plan.removed.len(), 2);
    assert_eq!(plan.unchanged, 0);
}

#[test]
fn search_db_unchanged_files_detected() {
    let p = disk("note.md", BASE_MS, "content");
    let (mtime, size) = p.meta.unwrap();
    let manifest = vec![entry("note.md", mtime, size)];
    let plan = compute_sync_plan(&manifest, &vec![p]);

    assert!(plan.added.is_empty());
    assert!(plan.modified.is_empty());
    assert!(plan.removed.is_empty());
    assert_eq!(plan.unchanged, 1);
}

#[test]
fn search_db_behavior_unchanged_files_detected() {
    let p = disk("note.md", BASE_MS, "content");
    let (mtime, size) = p.meta.unwrap();
    let manifest = vec![entry("note.md", mtime, size)];
    let plan = compute_sync_plan(&manifest, &vec![p]);

    assert!(plan.added.is_empty());
    assert!(plan.modified.is_empty());
    assert!(plan.removed.is_empty());
    assert_eq!(plan.unchanged, 1);
}

#[test]
fn modified_file_detected_by_mtime() {
    let p = disk("note.md", BASE_MS, "content");
    let manifest = vec![entry("note.md", 0, 7)];
    let plan = compute_sync_plan(&manifest, &vec![p]);

    assert!(plan.added.is_empty());
    assert_eq!(plan.modified.len(), 1);
    assert!(plan.removed.is_empty());
}

#[test]
fn mixed_add_modify_remove_unchanged() {
    let new_file = disk("new.md", BASE_MS, "new");
    let changed = disk("changed.md", BASE_MS, "updated");
    let same = disk("same.md", BASE_MS + 100_000, "same");
    let (same_mtime, same_size) = same.meta.unwrap();
    let manifest = vec![
        entry("changed.md", 0, 0),
        entry("deleted.md", 999, 10),
        entry("same.md", same_mtime, same_size),
    ];
    let plan = compute_sync_plan(&manifest, &vec![new_file, changed, same]);

    assert_eq!(plan.added.len(), 1);
    assert_eq!(plan.modified.len(), 1);
    assert_eq!(plan.removed, vec!["deleted.md"]);
    assert_eq!(plan.unchanged, 1);
}

#[test]
fn both_empty() {
    let plan = compute_sync_plan(&Vec::new(), &Vec::new());

    assert!(plan.added.is_empty());
    assert!(plan.modified.is_empty());
    assert!(plan.removed.is_empty());
    assert_eq!(plan.unchanged, 0);
}

#[test]
fn unreadable_file_is_modified() {
    let manifest = vec![entry("note.md", 5, 5)];
    let files = vec![DiskFile { path: "note.md".to_string(), meta: None }];
    let plan = compute_sync_plan(&manifest, &files);
    assert_eq!(plan.modified, vec!["note.md"]);
    assert_eq!(plan.unchanged, 0);
}

#[test]
fn plan_partitions_every_path() {
    let manifest = vec![entry("a.md", 1, 1), entry("b.md", 2, 2), entry("c.md", 3, 3)];
    let files = vec![disk("a.md", 1, "x"), disk("b.md", 9, "yy"), disk("d.md", 4, "zzzz")];
    let plan = compute_sync_plan(&manifest, &files);
    assert_eq!(plan.added, vec!["d.md"]);
    assert_eq!(plan.modified, vec!["b.md"]);
    assert_eq!(plan.removed, vec!["c.md"]);
    assert_eq!(plan.unchanged, 1);
}

#[test]
fn sync_after_rebuild_has_nothing_to_do() {
    let files = vec![disk("a.md", 10, "# Alpha\n[B](b.md)"), disk("b.md", 20, "# Beta")];
    let manifest: Vec<ManifestEntry> = files
        .iter()
        .map(|f| entry(&f.path, f.meta.unwrap().0, f.meta.unwrap().1))
        .collect();
    let plan = compute_sync_plan(&manifest, &files);
    assert!(plan.added.is_empty());
    assert!(plan.modified.is_empty());
    assert!(plan.removed.is_empty());
    assert_eq!(plan.unchanged, 2);
}

#[test]
fn sync_totals_and_early_stop() {
    let manifest = vec![entry("a.md", 1, 1), entry("gone.md", 2, 2)];
    assert!(manifest_is_unique(&manifest));
    assert!(!manifest_is_unique(&vec![entry("a.md", 1, 1), entry("a.md", 2, 2)]));
    let plan = compute_sync_plan(&manifest, &vec![disk("a.md", 5, "x"), disk("new.md", 1, "y")]);
    assert_eq!(plan_work(&plan), Some(3));
    assert!(!removals_finished(&plan, 0));
    assert!(removals_finished(&plan, 1));
    assert_eq!(sync_result(0, 4, 0, 0), Some(IndexResult { total: 4, indexed: 0 }));
    assert_eq!(sync_result(3, 2, 1, 2), Some(IndexResult { total: 5, indexed: 3 }));
    assert_eq!(sync_result(3, usize::MAX, 0, 0), None);
}
