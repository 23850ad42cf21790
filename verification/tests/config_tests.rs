use omarchy_syncd::bundles::{all, default_bundle_ids, ensure_known, find, resolve_paths};
use omarchy_syncd::config::{
    config_file_path, default_branch, ConfigError, FileConfig, RepoConfig, SyncConfig,
};

fn cfg(paths: &[&str], bundles: &[&str]) -> SyncConfig {
    SyncConfig {
        repo: RepoConfig {
            url: "git@example.com:user/dots.git".to_string(),
            branch: default_branch(),
        },
        files: FileConfig {
            paths: paths.iter().map(|s| s.to_string()).collect(),
            bundles: bundles.iter().map(|s| s.to_string()).collect(),
        },
    }
}

#[test]
fn catalog_has_seven_bundles() {
    let cat = all();
    assert_eq!(cat.len(), 7);
    assert_eq!(cat[0].id, "core_desktop");
    assert!(cat[0].paths.contains(&"~/.config/hypr".to_string()));
    let ids: Vec<String> = cat.iter().map(|b| b.id.clone()).collect();
    assert_eq!(ids, default_bundle_ids());
}

#[test]
fn find_known_and_unknown_bundles() {
    let b = find("terminals").unwrap();
    assert_eq!(b.name, "Terminals");
    assert_eq!(
        b.paths,
        vec![
            "~/.config/alacritty".to_string(),
            "~/.config/ghostty".to_string(),
            "~/.config/kitty".to_string()
        ]
    );
    assert!(find("no_such_bundle").is_none());
}

#[test]
fn resolve_paths_unions_sorts_and_dedups() {
    let ids = vec!["terminals".to_string(), "editors".to_string(), "terminals".to_string()];
    let r = resolve_paths(&ids).unwrap();
    assert_eq!(
        r,
        vec![
            "~/.config/Typora".to_string(),
            "~/.config/alacritty".to_string(),
            "~/.config/ghostty".to_string(),
            "~/.config/kitty".to_string(),
            "~/.config/nvim".to_string(),
        ]
    );
}

#[test]
fn resolve_paths_reports_unknown_bundle() {
    let ids = vec!["terminals".to_string(), "bogus".to_string()];
    let e = resolve_paths(&ids).unwrap_err();
    assert_eq!(e.id, "bogus");
    assert_eq!(e.message(), "Unknown bundle 'bogus'");
}

#[test]
fn ensure_known_accepts_catalog_ids_only() {
    assert!(ensure_known(&["core_desktop".to_string(), "system".to_string()]).is_ok());
    assert!(ensure_known(&["nope".to_string()]).is_err());
}

#[test]
fn resolved_paths_merges_explicit_and_bundle_paths() {
    let c = cfg(&["~/.config/custom-app"], &["editors"]);
    let r = c.resolved_paths().unwrap();
    assert_eq!(
        r,
        vec![
            "~/.config/Typora".to_string(),
            "~/.config/custom-app".to_string(),
            "~/.config/nvim".to_string(),
        ]
    );
}

#[test]
fn ensure_non_empty_paths_accepts_and_rejects() {
    assert!(cfg(&["~/.config/x"], &[]).ensure_non_empty_paths().is_ok());
    assert!(cfg(&[], &["system"]).ensure_non_empty_paths().is_ok());
    match cfg(&[], &[]).ensure_non_empty_paths() {
        Err(ConfigError::NoPathsConfigured) => {}
        other => panic!("expected NoPathsConfigured, got {:?}", other),
    }
    match cfg(&["~/.config/x"], &["ghost"]).ensure_non_empty_paths() {
        Err(ConfigError::UnknownBundle { id }) => assert_eq!(id, "ghost"),
        other => panic!("expected UnknownBundle, got {:?}", other),
    }
}

#[test]
fn sorted_bundles_sorts_and_dedups() {
    let c = cfg(&[], &["terminals", "core_desktop", "terminals"]);
    assert_eq!(
        c.sorted_bundles(),
        vec!["core_desktop".to_string(), "terminals".to_string()]
    );
}

#[test]
fn normalized_sorts_everything_and_keeps_repo() {
    let c = cfg(&["~/.config/b", "~/.config/a", "~/.config/b"], &["system", "editors"]);
    let n = c.normalized().unwrap();
    assert_eq!(n.repo.url, "git@example.com:user/dots.git");
    assert_eq!(n.repo.branch, "main");
    assert_eq!(
        n.files.paths,
        vec!["~/.config/a".to_string(), "~/.config/b".to_string()]
    );
    assert_eq!(
        n.files.bundles,
        vec!["editors".to_string(), "system".to_string()]
    );
    assert!(cfg(&[], &["missing"]).normalized().is_err());
}

#[test]
fn config_file_path_appends_file_name() {
    assert_eq!(
        config_file_path("/home/u/.config/omarchy-syncd"),
        "/home/u/.config/omarchy-syncd/config.toml"
    );
}

#[test]
fn activity_log_path_appends_file_name() {
    assert_eq!(
        omarchy_syncd::config::activity_log_path("/home/u/.local/share/omarchy-syncd"),
        "/home/u/.local/share/omarchy-syncd/activity.log"
    );
}

#[test]
fn default_branch_is_main() {
    assert_eq!(default_branch(), "main");
}
