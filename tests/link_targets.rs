use jotter::links::{gfm_link_targets, internal_link_targets, wiki_link_targets};

#[test]
fn gfm_link_targets_allows_spaces_in_folder_names() {
    let targets = gfm_link_targets("[Doc](Folder Name/child note.md)", "root.md");
    assert_eq!(targets, vec!["Folder Name/child note.md".to_string()]);
}

#[test]
fn gfm_link_targets_parses_angle_bracket_targets_with_spaces() {
    let targets = gfm_link_targets("[Doc](<Folder Name/child note.md>)", "root.md");
    assert_eq!(targets, vec!["Folder Name/child note.md".to_string()]);
}

#[test]
fn gfm_link_targets_decodes_url_encoded_targets() {
    let targets = gfm_link_targets("[Doc](Folder%20Name/child%20note.md)", "root.md");
    assert_eq!(targets, vec!["Folder Name/child note.md".to_string()]);
}

#[test]
fn wiki_link_targets_excludes_embedded_links() {
    let targets = wiki_link_targets("[[keep]] and ![[skip]]", "root.md");
    assert_eq!(targets, vec!["keep.md".to_string()]);
}

#[test]
fn wiki_link_targets_uses_relative_resolution_for_bare_names() {
    let targets = wiki_link_targets("[[Note]]", "folder/sub/source.md");
    assert_eq!(targets, vec!["folder/sub/Note.md".to_string()]);
}

#[test]
fn wiki_link_targets_supports_spaces_aliases_and_fragments() {
    let targets =
        wiki_link_targets("[[Folder Name/child note#Heading|Alias Label]]", "root.md");
    assert_eq!(targets, vec!["Folder Name/child note.md".to_string()]);
}

#[test]
fn wiki_link_targets_decodes_url_encoded_targets() {
    let targets = wiki_link_targets("[[Folder%20Name/child%20note]]", "root.md");
    assert_eq!(targets, vec!["Folder Name/child note.md".to_string()]);
}

#[test]
fn wiki_link_targets_ignores_targets_that_escape_vault() {
    let targets = wiki_link_targets("[[../escape]] [[/../escape2]] [[../../escape3]]", "root.md");
    assert!(targets.is_empty());
}

#[test]
fn wiki_link_targets_supports_vault_root_absolute_paths() {
    let targets = wiki_link_targets("[[/Folder Name/child note]]", "nested/source.md");
    assert_eq!(targets, vec!["Folder Name/child note.md".to_string()]);
}

#[test]
fn internal_link_targets_collects_gfm_and_wikilinks() {
    let targets = internal_link_targets(
        "[A](./gfm target.md) [[wiki target]] ![[embedded]]",
        "docs/source.md",
    );
    assert_eq!(
        targets,
        vec![
            "docs/gfm target.md".to_string(),
            "docs/wiki target.md".to_string()
        ]
    );
}

#[test]
fn link_target_parsers_cover_spaces_aliases_and_wikilinks() {
    let gfm = gfm_link_targets("[Doc](Folder Name/child note.md)", "root.md");
    assert_eq!(gfm, vec!["Folder Name/child note.md".to_string()]);

    let wiki = wiki_link_targets("[[Folder Name/child note#Heading|Alias Label]]", "root.md");
    assert_eq!(wiki, vec!["Folder Name/child note.md".to_string()]);

    let combined = internal_link_targets(
        "[A](./gfm target.md) [[wiki target]] ![[embedded]]",
        "docs/source.md",
    );
    assert_eq!(
        combined,
        vec![
            "docs/gfm target.md".to_string(),
            "docs/wiki target.md".to_string()
        ]
    );
}
