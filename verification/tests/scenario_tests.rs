//! End-to-end walk: discover repositories under a root, dump them to a
//! manifest, decode the manifest back and plan a restore into an empty
//! destination directory.

use pluginbaby::codec::{decode, encode};
use pluginbaby::collect::{collect_repos, WalkEntry};
use pluginbaby::reconcile::{restore_action, restore_destination, RestoreAction};

#[test]
fn dump_then_restore_reproduces_the_repositories() {
    // A root with three subdirectories: two git repositories tracking
    // remotes A and B, and one plain directory.
    let entries = vec![
        WalkEntry {
            path: String::from("/root"),
            depth: 0,
            is_dir: true,
            has_git_entry: false,
            origin_url: None,
        },
        WalkEntry {
            path: String::from("/root/repo_a"),
            depth: 1,
            is_dir: true,
            has_git_entry: true,
            origin_url: Some(String::from("https://example.org/A")),
        },
        WalkEntry {
            path: String::from("/root/plain"),
            depth: 1,
            is_dir: true,
            has_git_entry: false,
            origin_url: None,
        },
        WalkEntry {
            path: String::from("/root/repo_b"),
            depth: 1,
            is_dir: true,
            has_git_entry: true,
            origin_url: Some(String::from("https://example.org/B")),
        },
    ];

    // Snapshot: collect and encode, as dump writes the manifest.
    let packs = collect_repos(&entries, 3);
    assert_eq!(packs.len(), 2);
    let manifest = encode(&packs);

    // Materialize: decode the manifest and plan the clones into an empty
    // destination directory.
    let restored = decode(&manifest).unwrap();
    assert_eq!(restored.len(), 2);
    let mut clones: Vec<(String, String)> = Vec::new();
    for record in &restored {
        let dest = restore_destination(record.path().as_str(), Some("/dest"));
        // The destination directory is empty: nothing stands at the
        // destination, its parent exists.
        let action = restore_action(true, false, true);
        assert_eq!(action, RestoreAction::CloneInto);
        clones.push((record.url().clone(), dest));
    }

    assert_eq!(clones.len(), 2);
    assert_eq!(clones[0].0.as_str(), "https://example.org/A");
    assert_eq!(clones[0].1.as_str(), "/dest/repo_a");
    assert_eq!(clones[1].0.as_str(), "https://example.org/B");
    assert_eq!(clones[1].1.as_str(), "/dest/repo_b");

    // The plain directory is never referenced by the manifest or the plan.
    assert!(!manifest.contains("plain"));
    for (url, dest) in &clones {
        assert!(!url.contains("plain"));
        assert!(!dest.contains("plain"));
    }
}
