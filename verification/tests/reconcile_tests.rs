use pluginbaby::pack::Pack;
use pluginbaby::paths::{join_path, last_component, parent_dir};
use pluginbaby::reconcile::{
    manifest_file_path, render_list_entry, restore_action, restore_destination, update_repo,
    RestoreAction,
};

#[test]
fn update_plan_is_fetch_master_then_reset_fetched_tip() {
    let plan = update_repo(String::from("/r/a"), "https://example.org/a");
    assert_eq!(plan.path.as_str(), "/r/a");
    assert_eq!(plan.fetch_url.as_str(), "https://example.org/a");
    assert_eq!(plan.fetch_refspec.as_str(), "master");
    assert_eq!(plan.reset_target.as_str(), "FETCH_HEAD");
}

#[test]
fn restore_flattening() {
    // A destination override rebases the repository to its leaf name.
    let d = restore_destination("/home/user/plugins/foo", Some("/tmp/out"));
    assert_eq!(d.as_str(), "/tmp/out/foo");
}

#[test]
fn restore_without_override_keeps_the_location() {
    let d = restore_destination("/home/user/plugins/foo", None);
    assert_eq!(d.as_str(), "/home/user/plugins/foo");
}

#[test]
fn restore_never_clobbers() {
    // Whenever something already stands at the destination, the record
    // is skipped.
    assert_eq!(restore_action(true, true, true), RestoreAction::SkipConflict);
    assert_eq!(restore_action(true, true, false), RestoreAction::SkipConflict);
}

#[test]
fn restore_action_cases() {
    assert_eq!(restore_action(false, false, false), RestoreAction::SkipNoParent);
    assert_eq!(restore_action(false, true, true), RestoreAction::SkipNoParent);
    assert_eq!(restore_action(true, false, true), RestoreAction::CloneInto);
    assert_eq!(restore_action(true, false, false), RestoreAction::MakeParentThenClone);
}

#[test]
fn last_component_cases() {
    assert_eq!(last_component("/home/user/plugins/foo").as_str(), "foo");
    assert_eq!(last_component("/home/user/plugins/foo/").as_str(), "foo");
    assert_eq!(last_component("foo").as_str(), "foo");
    assert_eq!(last_component("/").as_str(), "");
    assert_eq!(last_component("").as_str(), "");
}

#[test]
fn parent_dir_cases() {
    assert_eq!(parent_dir("/a/b").unwrap().as_str(), "/a");
    assert_eq!(parent_dir("/a/b/").unwrap().as_str(), "/a");
    assert_eq!(parent_dir("/a").unwrap().as_str(), "/");
    assert_eq!(parent_dir("a").unwrap().as_str(), "");
    assert!(parent_dir("/").is_none());
    assert!(parent_dir("").is_none());
}

#[test]
fn join_path_cases() {
    assert_eq!(join_path("/tmp/out", "foo").as_str(), "/tmp/out/foo");
    assert_eq!(join_path("/tmp/out/", "foo").as_str(), "/tmp/out/foo");
    assert_eq!(join_path("", "foo").as_str(), "foo");
}

#[test]
fn manifest_file_path_cases() {
    assert_eq!(manifest_file_path("/x/Repofile").as_str(), "/x/Repofile");
    assert_eq!(manifest_file_path("/x").as_str(), "/x/Repofile");
    assert_eq!(manifest_file_path("/x/").as_str(), "/x/Repofile");
}

#[test]
fn render_list_entry_exact() {
    let p = Pack::new(String::from("/r/a"), "https://example.org/a", "origin");
    let line = render_list_entry(&p);
    assert_eq!(line.as_str(), "https://example.org/a \n   => /r/a");
}

#[test]
fn pack_getters() {
    let p = Pack::new(String::from("/r/a"), "u", "origin");
    assert_eq!(p.path().as_str(), "/r/a");
    assert_eq!(p.url().as_str(), "u");
    assert_eq!(p.remote_name().as_str(), "origin");
}
