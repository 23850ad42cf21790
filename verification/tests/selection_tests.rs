use omarchy_syncd::selection::{
    detect_bundles_from_paths, normalize_bundles, normalize_paths, prune_explicit_paths,
    validate_paths,
};

fn strings(items: &[&str]) -> Vec<String> {
    items.iter().map(|s| s.to_string()).collect()
}

#[test]
fn normalize_paths_trims_sorts_dedups_and_drops_empties() {
    let r = normalize_paths(strings(&["  ~/.config/b ", "~/.config/a", "~/.config/b", "  ", ""]));
    assert_eq!(r, strings(&["~/.config/a", "~/.config/b"]));
}

#[test]
fn normalize_bundles_behaves_like_paths() {
    let r = normalize_bundles(strings(&["terminals", " core_desktop", "terminals"]));
    assert_eq!(r, strings(&["core_desktop", "terminals"]));
}

#[test]
fn validate_paths_accepts_subset_and_names_offender() {
    let valid = strings(&["~/.config/a", "~/.config/b"]);
    assert!(validate_paths(&valid, &strings(&["~/.config/b"])).is_ok());
    assert!(validate_paths(&valid, &[]).is_ok());
    let e = validate_paths(&valid, &strings(&["~/.config/b", "~/.config/zzz"])).unwrap_err();
    assert_eq!(e.path, "~/.config/zzz");
    assert_eq!(
        e.message(),
        "Path ~/.config/zzz is not part of the configured backup set"
    );
}

#[test]
fn detect_bundles_requires_every_bundle_path() {
    let full_editors = strings(&["~/.config/nvim", "~/.config/Typora", "~/.config/extra"]);
    assert_eq!(detect_bundles_from_paths(&full_editors), strings(&["editors"]));
    let partial = strings(&["~/.config/nvim"]);
    assert!(detect_bundles_from_paths(&partial).is_empty());
}

#[test]
fn prune_explicit_paths_drops_bundle_covered_entries_in_order() {
    let r = prune_explicit_paths(
        &strings(&["editors"]),
        strings(&["~/.config/zzz", "~/.config/nvim", "~/.config/aaa"]),
    )
    .unwrap();
    assert_eq!(r, strings(&["~/.config/zzz", "~/.config/aaa"]));
}

#[test]
fn prune_explicit_paths_keeps_everything_without_bundles() {
    let paths = strings(&["~/.config/b", "~/.config/a"]);
    let r = prune_explicit_paths(&[], paths.clone()).unwrap();
    assert_eq!(r, paths);
}

#[test]
fn prune_explicit_paths_reports_unknown_bundle() {
    let e = prune_explicit_paths(&strings(&["bogus"]), strings(&["~/.config/a"])).unwrap_err();
    assert_eq!(e.id, "bogus");
}
