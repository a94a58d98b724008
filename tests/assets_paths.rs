use jotter::notes::{parse_safe_relative_path, validate_target_rel_path};

#[test]
fn validate_target_rel_path_rejects_traversal() {
    assert!(validate_target_rel_path("../x.png").is_err());
    assert!(validate_target_rel_path("a/../x.png").is_err());
    assert!(validate_target_rel_path("/abs/x.png").is_err());
    assert!(validate_target_rel_path(".assets/x.png").is_ok());
    assert!(validate_target_rel_path("assets/x.png").is_ok());
}

#[test]
fn parse_safe_relative_path_accepts_nested_note() {
    assert_eq!(parse_safe_relative_path("a/b.md"), Ok("a/b.md".to_string()));
    assert!(parse_safe_relative_path("./a.md").is_err());
    assert!(parse_safe_relative_path("a/../x.md").is_err());
    assert_eq!(
        parse_safe_relative_path("/abs/x.md"),
        Err("note path must be relative".to_string())
    );
}
