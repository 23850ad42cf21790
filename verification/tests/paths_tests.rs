use omarchy_syncd::paths::{
    expand_path, join_components, metadata_path, relative_to_home, resolve_spec, split_components,
};

#[test]
fn expand_tilde_slash() {
    assert_eq!(expand_path("~/.config/hypr", "/home/u"), "/home/u/.config/hypr");
}

#[test]
fn expand_bare_tilde() {
    assert_eq!(expand_path("~", "/home/u"), "/home/u");
}

#[test]
fn expand_leaves_plain_paths_alone() {
    assert_eq!(expand_path("/etc/passwd", "/home/u"), "/etc/passwd");
    assert_eq!(expand_path("relative/path", "/home/u"), "relative/path");
}

#[test]
fn relative_to_home_strips_prefix() {
    let r = relative_to_home("/home/u/.config/hypr", "/home/u").unwrap();
    assert_eq!(r, vec![".config".to_string(), "hypr".to_string()]);
}

#[test]
fn relative_to_home_rejects_outside_paths() {
    assert!(relative_to_home("/etc/passwd", "/home/u").is_none());
    assert!(relative_to_home("/home/u", "/home/u").is_none());
    assert!(relative_to_home("/home/unrelated/f", "/home/u").is_none());
}

#[test]
fn resolve_spec_combines_expansion_and_stripping() {
    let r = resolve_spec("~/.config/nvim/init.lua", "/home/u").unwrap();
    assert_eq!(
        r,
        vec![".config".to_string(), "nvim".to_string(), "init.lua".to_string()]
    );
    assert!(resolve_spec("/etc/passwd", "/home/u").is_none());
    assert!(resolve_spec("~", "/home/u").is_none());
}

#[test]
fn split_drops_empty_chunks() {
    assert_eq!(split_components("a//b/"), vec!["a".to_string(), "b".to_string()]);
    assert!(split_components("").is_empty());
    assert!(split_components("/").is_empty());
}

#[test]
fn join_then_split_round_trips() {
    let comps = vec![".config".to_string(), "omarchy".to_string(), "t.conf".to_string()];
    let joined = join_components(&comps);
    assert_eq!(joined, ".config/omarchy/t.conf");
    assert_eq!(split_components(&joined), comps);
}

#[test]
fn metadata_path_is_reserved_location() {
    assert_eq!(
        metadata_path(),
        vec![".omarchy-syncd".to_string(), "symlinks.json".to_string()]
    );
}
