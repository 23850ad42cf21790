use omarchy_syncd::fsmodel::{Fs, Node};
use omarchy_syncd::paths::split_components;
use omarchy_syncd::restore::restore;
use omarchy_syncd::snapshot::{snapshot, PathOutcome};

const HOME: &str = "/home/user";

fn comps(s: &str) -> Vec<String> {
    split_components(s)
}

fn file(bytes: &[u8]) -> Node {
    Node::File {
        content: bytes.to_vec(),
    }
}

fn link(target: &str, is_dir: bool) -> Node {
    Node::Link {
        target: target.to_string(),
        is_dir,
    }
}

fn specs(items: &[&str]) -> Vec<String> {
    items.iter().map(|s| s.to_string()).collect()
}

fn tree_pairs(fs: &Fs) -> Vec<(String, String)> {
    let mut pairs: Vec<(String, String)> = fs
        .all_entries()
        .iter()
        .map(|e| {
            (
                omarchy_syncd::paths::join_components(&e.path),
                format!("{:?}", e.node),
            )
        })
        .collect();
    pairs.sort();
    pairs
}

#[test]
fn snapshot_copies_single_file() {
    let mut home = Fs::new();
    home.set_node(&comps(".config/x/f"), file(b"C"));
    let r = snapshot(&specs(&["~/.config/x/f"]), HOME, &home, Fs::new());
    assert_eq!(r.outcomes, vec![PathOutcome::Applied]);
    assert_eq!(r.ledger.len(), 0);
    assert_eq!(r.tree.lookup(&comps(".config/x/f")), Some(&file(b"C")));
}

#[test]
fn snapshot_skips_missing_source() {
    let home = Fs::new();
    let r = snapshot(&specs(&["~/.config/absent"]), HOME, &home, Fs::new());
    assert_eq!(r.outcomes, vec![PathOutcome::Missing]);
    assert!(r.tree.lookup(&comps(".config/absent")).is_none());
}

#[test]
fn outside_home_spec_is_rejected_and_tree_untouched() {
    let mut home = Fs::new();
    home.set_node(&comps(".config/hypr/hyprland.conf"), file(b"# hypr\n"));
    let mut tree = Fs::new();
    tree.set_node(&comps("kept/file"), file(b"old"));
    let before = tree_pairs(&tree);
    let r = snapshot(&specs(&["/etc/passwd"]), HOME, &home, tree);
    assert_eq!(r.outcomes, vec![PathOutcome::OutsideHome]);
    assert_eq!(tree_pairs(&r.tree), before);
}

#[test]
fn file_round_trip_restores_content() {
    let mut home = Fs::new();
    home.set_node(&comps(".config/x/f"), file(b"C"));
    let snap = snapshot(&specs(&["~/.config/x/f"]), HOME, &home, Fs::new());
    // the original is deleted: restore into an empty home
    let restored = restore(&specs(&["~/.config/x/f"]), HOME, &snap.tree, Fs::new()).unwrap();
    assert_eq!(
        restored.home.lookup(&comps(".config/x/f")),
        Some(&file(b"C"))
    );
}

#[test]
fn symlink_round_trip_restores_link_not_content() {
    let mut home = Fs::new();
    home.set_node(&comps(".config/b"), file(b"target content"));
    home.set_node(&comps(".config/a"), link("../b", false));
    let snap = snapshot(&specs(&["~/.config/a"]), HOME, &home, Fs::new());
    // no literal copy of the link in the tree, one ledger record
    assert!(snap.tree.lookup(&comps(".config/a")).is_none());
    assert_eq!(snap.ledger.len(), 1);
    assert_eq!(snap.ledger[0].path, ".config/a");
    assert_eq!(snap.ledger[0].target, "../b");
    let restored = restore(&specs(&["~/.config/a"]), HOME, &snap.tree, Fs::new()).unwrap();
    // the restored entry is a link whose target is resolved against the
    // destination's parent directory, independent of any working directory
    assert_eq!(
        restored.home.lookup(&comps(".config/a")),
        Some(&link("/home/user/.config/../b", false))
    );
}

#[test]
fn directory_mirror_drops_removed_files() {
    let mut home = Fs::new();
    home.set_node(&comps(".config/d"), Node::Dir);
    home.set_node(&comps(".config/d/1"), file(b"one"));
    home.set_node(&comps(".config/d/2"), file(b"two"));
    let first = snapshot(&specs(&["~/.config/d"]), HOME, &home, Fs::new());
    assert!(first.tree.lookup(&comps(".config/d/1")).is_some());
    assert!(first.tree.lookup(&comps(".config/d/2")).is_some());

    let mut home2 = Fs::new();
    home2.set_node(&comps(".config/d"), Node::Dir);
    home2.set_node(&comps(".config/d/1"), file(b"one"));
    home2.set_node(&comps(".config/d/3"), file(b"three"));
    let second = snapshot(&specs(&["~/.config/d"]), HOME, &home2, first.tree);
    assert_eq!(second.tree.lookup(&comps(".config/d/1")), Some(&file(b"one")));
    assert!(second.tree.lookup(&comps(".config/d/2")).is_none());
    assert_eq!(
        second.tree.lookup(&comps(".config/d/3")),
        Some(&file(b"three"))
    );
}

#[test]
fn embedded_git_directories_are_pruned_at_every_depth() {
    let mut home = Fs::new();
    home.set_node(&comps(".config/d"), Node::Dir);
    home.set_node(&comps(".config/d/keep.txt"), file(b"k"));
    home.set_node(&comps(".config/d/.git"), Node::Dir);
    home.set_node(&comps(".config/d/.git/HEAD"), file(b"ref: refs/heads/main\n"));
    home.set_node(&comps(".config/d/sub"), Node::Dir);
    home.set_node(&comps(".config/d/sub/.git"), Node::Dir);
    home.set_node(&comps(".config/d/sub/.git/config"), file(b"x"));
    home.set_node(&comps(".config/d/sub/code.rs"), file(b"y"));
    let r = snapshot(&specs(&["~/.config/d"]), HOME, &home, Fs::new());
    assert!(r.tree.lookup(&comps(".config/d/keep.txt")).is_some());
    assert!(r.tree.lookup(&comps(".config/d/sub/code.rs")).is_some());
    assert!(r.tree.lookup(&comps(".config/d/.git")).is_none());
    assert!(r.tree.lookup(&comps(".config/d/.git/HEAD")).is_none());
    assert!(r.tree.lookup(&comps(".config/d/sub/.git")).is_none());
    assert!(r.tree.lookup(&comps(".config/d/sub/.git/config")).is_none());
}

#[test]
fn snapshot_twice_is_idempotent() {
    let mut home = Fs::new();
    home.set_node(&comps(".config/d"), Node::Dir);
    home.set_node(&comps(".config/d/file"), file(b"data"));
    home.set_node(&comps(".config/d/ln"), link("/tmp/elsewhere", false));
    home.set_node(&comps(".config/plain"), file(b"p"));
    let paths = specs(&["~/.config/d", "~/.config/plain"]);
    let first = snapshot(&paths, HOME, &home, Fs::new());
    let first_pairs = tree_pairs(&first.tree);
    let first_ledger = format!("{:?}", first.ledger);
    let second = snapshot(&paths, HOME, &home, first.tree);
    assert_eq!(tree_pairs(&second.tree), first_pairs);
    assert_eq!(format!("{:?}", second.ledger), first_ledger);
}

#[test]
fn empty_ledger_removes_stale_metadata_file() {
    let mut home = Fs::new();
    home.set_node(&comps(".config/a"), link("../b", false));
    let paths = specs(&["~/.config/a"]);
    let first = snapshot(&paths, HOME, &home, Fs::new());
    assert!(first
        .tree
        .lookup(&comps(".omarchy-syncd/symlinks.json"))
        .is_some());

    // the link is replaced by a regular file before the next run
    let mut home2 = Fs::new();
    home2.set_node(&comps(".config/a"), file(b"now a file"));
    let second = snapshot(&paths, HOME, &home2, first.tree);
    assert_eq!(second.ledger.len(), 0);
    assert!(second
        .tree
        .lookup(&comps(".omarchy-syncd/symlinks.json"))
        .is_none());
}

#[test]
fn nested_symlinks_inside_directory_are_collected() {
    let mut home = Fs::new();
    home.set_node(&comps(".config/omarchy"), Node::Dir);
    home.set_node(&comps(".config/omarchy/themes"), Node::Dir);
    home.set_node(
        &comps(".config/omarchy/themes/t/ghostty.conf"),
        file(b"# theme\n"),
    );
    home.set_node(
        &comps(".config/omarchy/current/theme"),
        link("../themes/test-theme", true),
    );
    let r = snapshot(&specs(&["~/.config/omarchy"]), HOME, &home, Fs::new());
    assert_eq!(r.ledger.len(), 1);
    assert_eq!(r.ledger[0].path, ".config/omarchy/current/theme");
    assert_eq!(r.ledger[0].target, "../themes/test-theme");
    assert!(r.ledger[0].is_dir);
    // the link never appears as a literal tree entry
    assert!(r
        .tree
        .lookup(&comps(".config/omarchy/current/theme"))
        .is_none());
    assert!(r
        .tree
        .lookup(&comps(".config/omarchy/themes/t/ghostty.conf"))
        .is_some());
}

#[test]
fn restore_replays_ledger_regardless_of_requested_paths() {
    let mut home = Fs::new();
    home.set_node(&comps(".config/hypr/h.conf"), file(b"monitor\n"));
    home.set_node(&comps(".config/a"), link("../b", false));
    let snap = snapshot(&specs(&["~/.config/hypr/h.conf", "~/.config/a"]), HOME, &home, Fs::new());
    // restore scoped to the file only; the ledger is still replayed in full
    let restored = restore(&specs(&["~/.config/hypr/h.conf"]), HOME, &snap.tree, Fs::new()).unwrap();
    assert!(restored.home.lookup(&comps(".config/hypr/h.conf")).is_some());
    assert_eq!(
        restored.home.lookup(&comps(".config/a")),
        Some(&link("/home/user/.config/../b", false))
    );
}

#[test]
fn restore_fails_on_corrupt_ledger() {
    let mut tree = Fs::new();
    tree.set_node(
        &comps(".omarchy-syncd/symlinks.json"),
        file(b"this is not a ledger"),
    );
    let r = restore(&specs(&[]), HOME, &tree, Fs::new());
    assert!(r.is_err());
}

#[test]
fn restore_tolerates_missing_ledger_file() {
    let mut tree = Fs::new();
    tree.set_node(&comps(".config/x"), file(b"v"));
    let r = restore(&specs(&["~/.config/x"]), HOME, &tree, Fs::new()).unwrap();
    assert_eq!(r.home.lookup(&comps(".config/x")), Some(&file(b"v")));
    assert_eq!(r.outcomes, vec![PathOutcome::Applied]);
}

#[test]
fn restore_skips_paths_absent_from_tree() {
    let tree = Fs::new();
    let mut home = Fs::new();
    home.set_node(&comps(".config/x"), file(b"keep me"));
    let r = restore(&specs(&["~/.config/x"]), HOME, &tree, home).unwrap();
    assert_eq!(r.outcomes, vec![PathOutcome::Missing]);
    assert_eq!(r.home.lookup(&comps(".config/x")), Some(&file(b"keep me")));
}

#[test]
fn restore_mirrors_directory_and_removes_stale_destination() {
    let mut tree = Fs::new();
    tree.set_node(&comps(".config/d"), Node::Dir);
    tree.set_node(&comps(".config/d/new"), file(b"n"));
    let mut home = Fs::new();
    home.set_node(&comps(".config/d"), Node::Dir);
    home.set_node(&comps(".config/d/stale"), file(b"s"));
    let r = restore(&specs(&["~/.config/d"]), HOME, &tree, home).unwrap();
    assert_eq!(r.home.lookup(&comps(".config/d/new")), Some(&file(b"n")));
    assert!(r.home.lookup(&comps(".config/d/stale")).is_none());
}

#[test]
fn absolute_link_target_is_kept_verbatim() {
    let mut home = Fs::new();
    home.set_node(&comps(".config/abs"), link("/usr/share/thing", true));
    let snap = snapshot(&specs(&["~/.config/abs"]), HOME, &home, Fs::new());
    let restored = restore(&specs(&["~/.config/abs"]), HOME, &snap.tree, Fs::new()).unwrap();
    assert_eq!(
        restored.home.lookup(&comps(".config/abs")),
        Some(&link("/usr/share/thing", true))
    );
}

#[test]
fn first_registration_wins_for_duplicate_ledger_paths() {
    let mut home = Fs::new();
    home.set_node(&comps(".config/d"), Node::Dir);
    home.set_node(&comps(".config/d/ln"), link("../x", false));
    // the same link is reachable through two overlapping specs
    let r = snapshot(&specs(&["~/.config/d/ln", "~/.config/d"]), HOME, &home, Fs::new());
    assert_eq!(r.ledger.len(), 1);
    assert_eq!(r.ledger[0].path, ".config/d/ln");
}
