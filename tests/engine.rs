use jotter::decode::decode_percent_sequences;
use jotter::git::line_type;
use jotter::links::{
    extract_local_links_snapshot, outlink_targets, parse_markdown_href_target,
    parse_wiki_link_target, wiki_link_targets, ExternalLink,
};
use jotter::model::{
    planned_match_pattern, search_match_expr, suggest_match_expr, IndexNoteMeta,
    IndexProgressEvent, SearchScope,
};
use jotter::notes::{
    collect_nested_move_sources, move_failure, move_success, MoveItem, folder_cache_key, image_extension, is_descendant_path, move_target_path, sanitize_stem,
    title_from_text,
};
use jotter::paths::{ensure_md_extension, is_external_url, name_from_rel_path, parent_folder_path, resolve_relative_path};
use jotter::query::{escape_fts_prefix_query, escape_fts_query, like_contains_pattern, like_prefix_pattern};
use jotter::rewrite::{resolve_note_link, rewrite_links};
use jotter::sync::IndexResult;
use jotter::vaults::{
    is_excluded_folder, normalize_relative_path, upsert_vault, vault_path_by_id, Vault,
    VaultEntry, VaultStore,
};
use jotter::worker::{
    completion_event, new_progress_state, new_yield_state, on_yield_command, progress_event,
    CommandKind, IndexRun, NotesCache, YieldAction,
};

fn meta(path: &str, title: &str) -> IndexNoteMeta {
    IndexNoteMeta {
        id: path.to_string(),
        path: path.to_string(),
        title: title.to_string(),
        name: name_from_rel_path(path),
        mtime_ms: 1,
        size_bytes: 2,
    }
}

fn vault(id: &str, path: &str, note_count: Option<u64>) -> Vault {
    Vault {
        id: id.to_string(),
        path: path.to_string(),
        name: id.to_string(),
        created_at: 0,
        last_opened_at: None,
        note_count,
        is_available: true,
    }
}

#[test]
fn snapshot_dedupes_and_drops_self() {
    let md = "[A](b.md) [[c]] [A again](b.md) [[self]] [web](https://x.com) [again](https://x.com)";
    let snap = extract_local_links_snapshot(md, "self.md");
    assert_eq!(snap.outlink_paths, vec!["b.md".to_string(), "c.md".to_string()]);
    assert_eq!(
        snap.external_links,
        vec![ExternalLink { url: "https://x.com".to_string(), text: "web".to_string() }]
    );
}

#[test]
fn snapshot_external_link_without_text_uses_url() {
    let snap = extract_local_links_snapshot("[ ](http://example.org/page)", "n.md");
    assert_eq!(snap.external_links[0].text, "http://example.org/page");
    assert!(snap.outlink_paths.is_empty());
}

#[test]
fn external_link_text_renders_breaks_and_code() {
    let snap = extract_local_links_snapshot("[the `api`\ndocs](https://x.org)", "n.md");
    assert_eq!(snap.external_links[0].text, "the api docs");
}

#[test]
fn escaped_bang_is_a_link_but_embed_is_not() {
    assert_eq!(wiki_link_targets("\\![[x]]", "root.md"), vec!["x.md".to_string()]);
    assert!(wiki_link_targets("![[x]]", "root.md").is_empty());
}

#[test]
fn links_inside_code_are_ignored() {
    assert!(wiki_link_targets("`[[x]]` and\n```\n[[y]]\n```", "root.md").is_empty());
}

#[test]
fn links_inside_tilde_fences_are_ignored() {
    let md = "~~~\n[[hidden]]\n~~~\n[[shown]]\nx ~~~ [[inline]]";
    assert_eq!(wiki_link_targets(md, "r.md"), vec!["shown.md".to_string(), "inline.md".to_string()]);
    assert!(wiki_link_targets("~~~md\n[[open]]", "r.md").is_empty());
    let map = vec![("hidden.md".to_string(), "moved.md".to_string())];
    assert!(!rewrite_links("~~~\n[[hidden]]\n~~~", "r.md", "r.md", &map).changed);
}

#[test]
fn md_suffix_in_wiki_target_is_idempotent() {
    assert_eq!(resolve_note_link("docs/a.md", "foo.md"), Some("foo.md".to_string()));
    assert_eq!(resolve_note_link("docs/a.md", "foo"), Some("foo.md".to_string()));
    assert_eq!(wiki_link_targets("[[foo.md]] [[foo]]", "r.md"), vec!["foo.md".to_string(), "foo.md".to_string()]);
}

#[test]
fn resolved_link_has_no_dot_segments() {
    assert_eq!(resolve_note_link("a/b/n.md", "./x/../y"), Some("a/b/y.md".to_string()));
    assert_eq!(resolve_note_link("n.md", "../x"), None);
}

#[test]
fn rewrite_without_moves_keeps_body() {
    let md = "See [[note]], [[./local|L]] and [t](../up.md)\n`[[code]]`";
    let result = rewrite_links(md, "docs/s.md", "docs/s.md", &Vec::new());
    assert!(!result.changed);
    assert_eq!(result.markdown, md);
}

#[test]
fn link_rewrite_across_move() {
    let result = rewrite_links(
        "[[./sibling]] and [doc](sibling.md)",
        "docs/source.md",
        "archive/source.md",
        &Vec::new(),
    );
    assert!(result.changed);
    assert_eq!(result.markdown, "[[../docs/sibling]] and [doc](sibling.md)");
}

#[test]
fn rewrite_keeps_fragment_alias_and_angle_brackets() {
    let map = vec![
        ("old.md".to_string(), "new.md".to_string()),
        ("old note.md".to_string(), "new note.md".to_string()),
    ];
    let result = rewrite_links("[[old#Sec|Alias]] [x](<old note.md>)", "s.md", "s.md", &map);
    assert!(result.changed);
    assert_eq!(result.markdown, "[[new#Sec|Alias]] [x](<new note.md>)");
}

#[test]
fn orphan_target_is_stored_as_outlink() {
    assert_eq!(outlink_targets("[[planned/idea]]", "src.md"), vec!["planned/idea.md".to_string()]);
    assert_eq!(planned_match_pattern("idea"), Some("%idea%".to_string()));
}

#[test]
fn outlinks_never_include_source() {
    let targets = outlink_targets("[[a]] [[a]] [me](a.md) [[b]]", "a.md");
    assert_eq!(targets, vec!["b.md".to_string()]);
}

#[test]
fn minimal_vault_titles_and_links() {
    assert_eq!(title_from_text("# Alpha\n[B](b.md)", "a"), "Alpha");
    assert_eq!(title_from_text("# Beta", "b"), "Beta");
    assert_eq!(outlink_targets("# Alpha\n[B](b.md)", "a.md"), vec!["b.md".to_string()]);
    assert_eq!(search_match_expr("Alpha", SearchScope::All), Some("\"Alpha\"".to_string()));
}

#[test]
fn title_rules() {
    assert_eq!(title_from_text("\n\n  # Hello  \nbody", "stem"), "Hello");
    assert_eq!(title_from_text("Plain line\n# Heading", "stem"), "stem");
    assert_eq!(title_from_text("#NoSpace", "s"), "s");
    assert_eq!(title_from_text("", "empty"), "empty");
}

#[test]
fn like_prefix_escapes_wildcards() {
    assert_eq!(like_prefix_pattern("p50%/"), "p50\\%/%");
    assert_eq!(like_prefix_pattern("%_x"), "\\%\\_x%");
    assert_eq!(like_prefix_pattern("a\\b"), "a\\\\b%");
}

#[test]
fn like_contains_lowercases_and_escapes() {
    assert_eq!(like_contains_pattern(" Foo_% "), "%foo\\_\\%%");
}

#[test]
fn empty_queries_ask_nothing() {
    assert_eq!(search_match_expr("   ", SearchScope::All), None);
    assert_eq!(suggest_match_expr(""), None);
    assert_eq!(suggest_match_expr("?? !!"), None);
    assert_eq!(planned_match_pattern(" "), None);
}

#[test]
fn search_scopes_prefix_columns() {
    assert_eq!(
        search_match_expr(" a \"b\" ", SearchScope::Title),
        Some("title : \"a\" \"b\"".to_string())
    );
    assert_eq!(search_match_expr("x", SearchScope::Path), Some("path : \"x\"".to_string()));
    assert_eq!(search_match_expr("x", SearchScope::Content), Some("body : \"x\"".to_string()));
    assert_eq!(
        suggest_match_expr("foo-bar baz!"),
        Some("{title name path} : \"foo-bar\"* \"baz\"*".to_string())
    );
}

#[test]
fn fts_escapes() {
    assert_eq!(escape_fts_query("hello \"world\""), "\"hello\" \"world\"");
    assert_eq!(escape_fts_query(""), "");
    assert_eq!(escape_fts_prefix_query("foo-bar baz! ??"), "\"foo-bar\"* \"baz\"*");
}

#[test]
fn percent_decoding() {
    assert_eq!(decode_percent_sequences("a%20b%C3%A9%zz%4"), "a bé%zz%4");
    assert_eq!(decode_percent_sequences("plain/path.md"), "plain/path.md");
    assert_eq!(parse_markdown_href_target(" <a b.md> "), Some("a b.md".to_string()));
    assert_eq!(parse_markdown_href_target("x.md \"title\""), Some("x.md".to_string()));
    assert_eq!(parse_markdown_href_target("x.md#frag"), Some("x.md".to_string()));
    assert_eq!(parse_markdown_href_target("x.md?v=1"), Some("x.md".to_string()));
    assert_eq!(parse_markdown_href_target("dir.md/file.md"), Some("dir.md/file.md".to_string()));
    assert_eq!(parse_markdown_href_target("x.mdx"), None);
    assert_eq!(parse_markdown_href_target("image.png"), None);
    assert_eq!(parse_markdown_href_target("https://a.md"), None);
    assert_eq!(parse_wiki_link_target(" a%20b#h|alias "), Some("a b".to_string()));
    assert_eq!(jotter::links::parse_internal_markdown_target(" a%20b.md#h "), Some("a b.md".to_string()));
    assert_eq!(jotter::links::parse_internal_markdown_target("https://x.md"), None);
    assert_eq!(jotter::links::parse_internal_markdown_target("x.png"), None);
    assert_eq!(parse_wiki_link_target("http://x"), None);
}

#[test]
fn path_helpers() {
    assert_eq!(resolve_relative_path("a/b", "../c.md"), Some("a/c.md".to_string()));
    assert_eq!(resolve_relative_path("", ".."), None);
    assert_eq!(ensure_md_extension("x.MD"), "x.MD");
    assert_eq!(ensure_md_extension("x"), "x.md");
    assert!(is_external_url("HTTP://a"));
    assert!(!is_external_url("ftp://a"));
    assert_eq!(name_from_rel_path("a/b/note.md"), "note");
    assert_eq!(parent_folder_path("a/b/c.md"), "a/b");
    assert_eq!(parent_folder_path("c.md"), "");
    assert_eq!(normalize_relative_path("a/./b//c.md"), "a/b/c.md");
}

#[test]
fn note_helpers() {
    assert_eq!(sanitize_stem("My Photo (1).PNG"), "my-photo-1-png");
    assert_eq!(sanitize_stem("!!!"), "image");
    assert_eq!(image_extension("image/jpeg", Some("shot.PNG")), "png");
    assert_eq!(image_extension("IMAGE/JPEG", None), "jpg");
    assert_eq!(image_extension("image/svg+xml", Some(".hidden")), "svg");
    assert_eq!(image_extension("text/plain", Some("noext")), "png");
    assert_eq!(move_target_path("archive", "docs/a.md"), Ok("archive/a.md".to_string()));
    assert_eq!(move_target_path("", "a.md"), Ok("a.md".to_string()));
    assert!(move_target_path("x", "..").is_err());
    assert!(is_descendant_path("docs/a.md", "docs"));
    assert!(!is_descendant_path("docs2/a", "docs"));
    assert!(!is_descendant_path("x", ""));
    assert_eq!(folder_cache_key("v1", "docs"), "v1:docs");
    assert_eq!(line_type('+'), "addition");
    assert_eq!(line_type(' '), "context");
}

#[test]
fn vault_registry() {
    assert!(is_excluded_folder(".git"));
    assert!(is_excluded_folder(".jotter"));
    assert!(!is_excluded_folder("git"));
    let mut store = VaultStore { vaults: Vec::new(), last_vault_id: None };
    upsert_vault(&mut store, vault("v1", "/a", Some(3)), 10);
    upsert_vault(&mut store, vault("v2", "/b", None), 20);
    upsert_vault(&mut store, vault("v1", "/a2", None), 30);
    assert_eq!(store.vaults.len(), 2);
    assert_eq!(store.last_vault_id, Some("v1".to_string()));
    assert_eq!(store.vaults[0].vault.note_count, Some(3));
    assert_eq!(store.vaults[0].last_opened_at, 30);
    assert_eq!(vault_path_by_id(&store, "v1"), Some("/a2".to_string()));
    assert_eq!(vault_path_by_id(&store, "v3"), None);
    let _: &VaultEntry = &store.vaults[1];
}

#[test]
fn preempted_rebuild_queues_one_sync() {
    let mut state = new_yield_state();
    assert_eq!(on_yield_command(&mut state, CommandKind::Rebuild), YieldAction::Defer);
    assert_eq!(
        on_yield_command(&mut state, CommandKind::UpsertNote),
        YieldAction::DispatchNow { queue_follow_up_sync: true }
    );
    assert_eq!(
        on_yield_command(&mut state, CommandKind::RemoveNote),
        YieldAction::DispatchNow { queue_follow_up_sync: false }
    );
    assert_eq!(on_yield_command(&mut state, CommandKind::Shutdown), YieldAction::Defer);
}

#[test]
fn progress_and_completion_events() {
    let mut p = new_progress_state();
    assert_eq!(
        progress_event(&mut p, "v", 0, 5),
        IndexProgressEvent::Started { vault_id: "v".to_string(), total: 5 }
    );
    assert_eq!(
        progress_event(&mut p, "v", 3, 5),
        IndexProgressEvent::Progress { vault_id: "v".to_string(), indexed: 3, total: 5 }
    );
    assert_eq!(
        completion_event("v", Ok(IndexResult { total: 5, indexed: 5 }), 7),
        IndexProgressEvent::Completed { vault_id: "v".to_string(), indexed: 5, elapsed_ms: 7 }
    );
    assert_eq!(
        completion_event("v", Err("boom".to_string()), 7),
        IndexProgressEvent::Failed { vault_id: "v".to_string(), error: "boom".to_string() }
    );
}

#[test]
fn index_run_batches_and_cancel() {
    let mut run = IndexRun::new(250);
    assert_eq!(run.next_batch(false), Some((0, 100)));
    assert_eq!(run.next_batch(false), Some((100, 200)));
    assert_eq!(run.next_batch(false), Some((200, 250)));
    assert_eq!(run.next_batch(false), None);
    assert_eq!(run.result(), IndexResult { total: 250, indexed: 250 });
    let mut cancelled = IndexRun::new(250);
    assert_eq!(cancelled.next_batch(false), Some((0, 100)));
    assert_eq!(cancelled.next_batch(true), None);
    assert_eq!(cancelled.result(), IndexResult { total: 250, indexed: 100 });
}

#[test]
fn cache_prefix_rename_of_folder() {
    let mut cache = NotesCache::new();
    cache.upsert(meta("docs/a.md", "A"));
    cache.upsert(meta("docs/b.md", "B"));
    cache.upsert(meta("other.md", "O"));
    cache.rename_prefix(&"docs/".to_string(), &"archive/".to_string());
    let paths: Vec<&str> = cache.entries.iter().map(|m| m.path.as_str()).collect();
    assert_eq!(paths, vec!["other.md", "archive/a.md", "archive/b.md"]);
    assert_eq!(cache.entries[1].id, "archive/a.md");
}

#[test]
fn cache_upsert_twice_equals_once() {
    let mut once = NotesCache::new();
    once.upsert(meta("a.md", "A"));
    let mut twice = once.clone();
    twice.upsert(meta("a.md", "A"));
    assert_eq!(once, twice);
    twice.upsert(meta("a.md", "A2"));
    assert_eq!(twice.entries.len(), 1);
    assert_eq!(twice.entries[0].title, "A2");
}

#[test]
fn cache_remove_and_rename() {
    let mut cache = NotesCache::new();
    cache.upsert(meta("p50%/a.md", "X"));
    cache.upsert(meta("p500/a.md", "Y"));
    cache.remove_prefix(&"p50%/".to_string());
    assert_eq!(cache.entries.len(), 1);
    assert_eq!(cache.entries[0].path, "p500/a.md");
    cache.rename(&"p500/a.md".to_string(), &"z.md".to_string());
    assert_eq!(cache.entries[0].path, "z.md");
    cache.remove(&"z.md".to_string());
    assert!(cache.entries.is_empty());
}

#[test]
fn vault_id_is_blake3_hex_of_path() {
    assert_eq!(
        jotter::vaults::vault_id_for_path(""),
        "af1349b9f5f9a1a6a0404dea36dcc9499bcb25c9adc112b7cc9a93cae41f3262"
    );
    let id = jotter::vaults::vault_id_for_path("/home/me/notes");
    assert_eq!(id.len(), 64);
    assert_ne!(id, "/home/me/notes");
    assert_eq!(id, jotter::vaults::vault_id_for_path("/home/me/notes"));
}

#[test]
fn move_results_and_nested_sources() {
    let failed = move_failure("a.md", "b/a.md".to_string(), "exists".to_string());
    assert!(!failed.success);
    assert_eq!(failed.error, Some("exists".to_string()));
    assert_eq!(failed.new_path, "b/a.md");
    let ok = move_success("a.md".to_string(), "b/a.md".to_string());
    assert!(ok.success && ok.error.is_none());
    let items = vec![
        MoveItem { path: "docs".to_string(), is_folder: true },
        MoveItem { path: "docs/a.md".to_string(), is_folder: false },
        MoveItem { path: "docs2/b.md".to_string(), is_folder: false },
        MoveItem { path: "docs/sub".to_string(), is_folder: true },
    ];
    let mut invalid = vec!["earlier".to_string()];
    collect_nested_move_sources(&items, "docs", &mut invalid);
    assert_eq!(invalid, vec!["earlier".to_string(), "docs/a.md".to_string(), "docs/sub".to_string()]);
}

#[test]
fn external_link_text_is_the_parsed_label() {
    let snap = extract_local_links_snapshot("[*a*](https://x.org) and [**b** `c`](https://y.org)", "n.md");
    assert_eq!(snap.external_links[0].text, "a");
    assert_eq!(snap.external_links[1].text, "b c");
}

#[test]
fn autolinks_are_external_links() {
    let snap = extract_local_links_snapshot("see https://x.org/p and <https://y.org>", "n.md");
    let urls: Vec<&str> = snap.external_links.iter().map(|e| e.url.as_str()).collect();
    assert_eq!(urls, vec!["https://x.org/p", "https://y.org"]);
}

#[test]
fn reference_links_and_nested_labels_are_outlinks() {
    let md = "[t][r] and [a [b] c](x.md)\n\n[r]: b.md\n";
    assert_eq!(
        extract_local_links_snapshot(md, "n.md").outlink_paths,
        vec!["b.md".to_string(), "x.md".to_string()]
    );
}

#[test]
fn links_in_indented_code_are_ignored() {
    assert!(wiki_link_targets("para\n\n    [[hidden]]\n", "r.md").is_empty());
    assert!(extract_local_links_snapshot("para\n\n    [x](y.md)\n", "r.md").outlink_paths.is_empty());
}

#[test]
fn rewrite_handles_multibyte_text_before_links() {
    let map = vec![("old.md".to_string(), "new.md".to_string())];
    let result = rewrite_links("é 好 [[old]] and [x](old.md)", "s.md", "s.md", &map);
    assert_eq!(result.markdown, "é 好 [[new]] and [x](new.md)");
}
