use pluginbaby::collect::{collect_entry, collect_git_paths, collect_repos, get_package, WalkEntry};

fn git_dir(path: &str, depth: usize, url: &str) -> WalkEntry {
    WalkEntry {
        path: String::from(path),
        depth,
        is_dir: true,
        has_git_entry: true,
        origin_url: Some(String::from(url)),
    }
}

fn plain_dir(path: &str, depth: usize) -> WalkEntry {
    WalkEntry {
        path: String::from(path),
        depth,
        is_dir: true,
        has_git_entry: false,
        origin_url: None,
    }
}

#[test]
fn depth_bound_exact() {
    // One repository at each depth 0..=5 below the root.
    let entries: Vec<WalkEntry> = (0usize..=5)
        .map(|d| git_dir(&format!("/root/d{}", d), d, &format!("u{}", d)))
        .collect();
    for k in 0usize..=5 {
        let packs = collect_repos(&entries, k);
        assert_eq!(packs.len(), k + 1, "bound {} keeps exactly depths 0..={}", k, k);
        for (i, p) in packs.iter().enumerate() {
            assert_eq!(p.path().as_str(), format!("/root/d{}", i));
        }
    }
}

#[test]
fn detector_purity_no_git_no_record() {
    // A directory without a .git entry never shows up, whatever else it holds.
    let entries = vec![
        plain_dir("/root", 0),
        git_dir("/root/a", 1, "url-a"),
        plain_dir("/root/b", 1),
        WalkEntry {
            path: String::from("/root/c"),
            depth: 1,
            is_dir: true,
            has_git_entry: false,
            origin_url: Some(String::from("url-c")),
        },
    ];
    let packs = collect_repos(&entries, 3);
    assert_eq!(packs.len(), 1);
    assert_eq!(packs[0].path().as_str(), "/root/a");
}

#[test]
fn files_are_excluded() {
    let entries = vec![WalkEntry {
        path: String::from("/root/file.txt"),
        depth: 1,
        is_dir: false,
        has_git_entry: true,
        origin_url: Some(String::from("u")),
    }];
    assert_eq!(collect_repos(&entries, 3).len(), 0);
    assert_eq!(collect_git_paths(&entries, 3).len(), 0);
}

#[test]
fn missing_remote_is_excluded() {
    // A repository without the expected remote yields no record but is
    // still a git path.
    let entries = vec![WalkEntry {
        path: String::from("/root/norigin"),
        depth: 1,
        is_dir: true,
        has_git_entry: true,
        origin_url: None,
    }];
    assert_eq!(collect_repos(&entries, 3).len(), 0);
    let paths = collect_git_paths(&entries, 3);
    assert_eq!(paths.len(), 1);
    assert_eq!(paths[0].as_str(), "/root/norigin");
}

#[test]
fn traversal_order_is_preserved() {
    let entries = vec![
        git_dir("/r/one", 1, "u1"),
        plain_dir("/r/mid", 1),
        git_dir("/r/two", 1, "u2"),
        git_dir("/r/three", 2, "u3"),
    ];
    let packs = collect_repos(&entries, 3);
    let paths: Vec<&str> = packs.iter().map(|p| p.path().as_str()).collect();
    assert_eq!(paths, vec!["/r/one", "/r/two", "/r/three"]);
}

#[test]
fn isolation_under_traversal_failure() {
    // An unreadable subtree only removes its own entries from the walk;
    // the records collected for every other subtree stay the same.
    let readable = vec![git_dir("/r/a", 1, "ua"), git_dir("/r/c", 1, "uc")];
    let mut full = vec![git_dir("/r/a", 1, "ua")];
    full.push(git_dir("/r/b", 1, "ub"));
    full.push(git_dir("/r/b/inner", 2, "ubi"));
    full.push(git_dir("/r/c", 1, "uc"));

    let with_b = collect_repos(&full, 3);
    let without_b = collect_repos(&readable, 3);
    let keep: Vec<&str> = with_b
        .iter()
        .filter(|p| !p.path().as_str().starts_with("/r/b"))
        .map(|p| p.path().as_str())
        .collect();
    let got: Vec<&str> = without_b.iter().map(|p| p.path().as_str()).collect();
    assert_eq!(keep, got);
    assert_eq!(got, vec!["/r/a", "/r/c"]);
}

#[test]
fn get_package_maps_the_observed_remote() {
    let p = get_package(
        String::from("/r/a"),
        "origin",
        Some(String::from("https://example.org/a")),
    )
    .unwrap();
    assert_eq!(p.path().as_str(), "/r/a");
    assert_eq!(p.url().as_str(), "https://example.org/a");
    assert_eq!(p.remote_name().as_str(), "origin");
    assert!(get_package(String::from("/r/a"), "origin", None).is_none());
}

#[test]
fn collect_entry_decides_one_entry_at_a_time() {
    // The per-entry decision agrees with the batch collector, so a walk
    // can be consumed lazily.
    let entries = vec![
        git_dir("/r/a", 1, "ua"),
        plain_dir("/r/plain", 1),
        git_dir("/r/deep", 4, "ud"),
    ];
    let mut streamed = Vec::new();
    for e in &entries {
        if let Some(p) = collect_entry(e, 3) {
            streamed.push(p);
        }
    }
    let batch = collect_repos(&entries, 3);
    assert_eq!(streamed.len(), batch.len());
    assert_eq!(streamed.len(), 1);
    assert_eq!(streamed[0].path(), batch[0].path());
    assert_eq!(streamed[0].url(), batch[0].url());
    assert_eq!(streamed[0].url().as_str(), "ua");
}

#[test]
fn deep_entries_are_cut_by_the_bound() {
    let entries = vec![git_dir("/r/shallow", 1, "u1"), git_dir("/r/very/deep", 4, "u2")];
    let packs = collect_repos(&entries, 3);
    assert_eq!(packs.len(), 1);
    assert_eq!(packs[0].path().as_str(), "/r/shallow");
}
