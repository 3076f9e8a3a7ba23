//! The reconciler's decisions: the sync plan for one repository, the
//! semantics that makes sync idempotent, and the materialize (restore)
//! policy — where a record is cloned to, and when it is skipped instead.
//! Executing the decisions (fetching, resetting, cloning, touching the
//! filesystem) happens outside this crate.

use vstd::prelude::*;

use crate::pack::Pack;
use crate::paths::{join_path, last_component, spec_join, spec_last_component};

verus! {

/// The sync plan for one repository: fetch this refspec from the
/// record's remote URL into the working copy at `path`, then hard-reset
/// the working copy to the reference tip that the fetch brought.
pub struct UpdatePlan {
    pub path: String,
    pub fetch_url: String,
    pub fetch_refspec: String,
    pub reset_target: String,
}

/// The sync plan for the repository at `path` tracking `url`: fetch
/// `master` from the URL, then hard-reset to the fetched reference tip —
/// the reference named `FETCH_HEAD`, resolved only after the fetch, so
/// the checkout advances to what the remote holds. The fetch comes
/// first; a failed fetch skips the reset and the record.
pub fn update_repo(path: String, url: &str) -> (plan: UpdatePlan)
    ensures
        plan.path@ == path@,
        plan.fetch_url@ == url@,
        plan.fetch_refspec@ == "master"@,
        plan.reset_target@ == "FETCH_HEAD"@,
{
    UpdatePlan {
        path,
        fetch_url: url.to_owned(),
        fetch_refspec: String::from_str("master"),
        reset_target: String::from_str("FETCH_HEAD"),
    }
}

/// Model of one working copy under sync: which commit its checkout
/// points at, which tip the last fetch brought (the fetched reference),
/// and whether local edits remain.
pub struct RepoModel {
    pub head: int,
    pub fetched: Option<int>,
    pub clean: bool,
}

/// Model of fetching from a remote whose tip is `remote_tip`: the
/// fetched reference now names that tip; checkout and edits are
/// untouched.
pub open spec fn spec_fetch(wc: RepoModel, remote_tip: int) -> RepoModel {
    RepoModel { head: wc.head, fetched: Some(remote_tip), clean: wc.clean }
}

/// Model of a hard reset to `target`: the checkout moves there, local
/// edits are gone.
pub open spec fn spec_reset_hard(wc: RepoModel, target: int) -> RepoModel {
    RepoModel { head: target, fetched: wc.fetched, clean: true }
}

/// What one sync leaves behind: the checkout points at the remote tip,
/// local edits are gone.
pub open spec fn spec_sync(wc: RepoModel, remote_tip: int) -> RepoModel {
    RepoModel { head: remote_tip, fetched: Some(remote_tip), clean: true }
}

/// The plan's two steps — fetch, then hard reset to the tip the fetch
/// brought — implement the sync semantics: the checkout ends at the
/// remote tip, not where it already stood.
pub proof fn lemma_plan_implements_sync(wc: RepoModel, remote_tip: int)
    ensures
        spec_reset_hard(spec_fetch(wc, remote_tip), spec_fetch(wc, remote_tip).fetched->0)
            == spec_sync(wc, remote_tip),
{
}

/// Sync idempotence: against an unchanged remote, a second sync leaves
/// the working copy exactly as the first did — hard-resetting to the
/// same tip changes nothing.
pub proof fn lemma_sync_idempotent(wc: RepoModel, remote_tip: int)
    ensures
        spec_sync(spec_sync(wc, remote_tip), remote_tip) == spec_sync(wc, remote_tip),
{
}

/// What materialize does for one manifest record.
#[derive(PartialEq, Eq, Structural, Debug)]
pub enum RestoreAction {
    /// Something already stands at the destination: skip it, touch
    /// nothing there.
    SkipConflict,
    /// The destination has no parent directory: skip it.
    SkipNoParent,
    /// The parent directory is in place: clone into the destination.
    CloneInto,
    /// Create the missing parent directories, then clone into the
    /// destination.
    MakeParentThenClone,
}

/// The decision materialize takes for one record, from what the
/// filesystem showed: no parent skips first, then a conflict at the
/// destination skips, and a missing parent chain is created before the
/// clone.
pub open spec fn spec_restore_action(
    has_parent: bool,
    dest_exists: bool,
    parent_exists: bool,
) -> RestoreAction {
    if !has_parent {
        RestoreAction::SkipNoParent
    } else if dest_exists {
        RestoreAction::SkipConflict
    } else if parent_exists {
        RestoreAction::CloneInto
    } else {
        RestoreAction::MakeParentThenClone
    }
}

/// Decide one record's fate during materialize. `has_parent` says the
/// destination path has a parent directory at all, `dest_exists` that
/// something already stands at the destination, `parent_exists` that the
/// parent directory is already on disk.
pub fn restore_action(has_parent: bool, dest_exists: bool, parent_exists: bool) -> (a:
    RestoreAction)
    ensures
        a == spec_restore_action(has_parent, dest_exists, parent_exists),
{
    if !has_parent {
        RestoreAction::SkipNoParent
    } else if dest_exists {
        RestoreAction::SkipConflict
    } else if parent_exists {
        RestoreAction::CloneInto
    } else {
        RestoreAction::MakeParentThenClone
    }
}

/// Restore non-clobber: whenever something already stands at the
/// destination, the decision is a skip — never a clone over it.
pub proof fn lemma_restore_never_clobbers(
    has_parent: bool,
    dest_exists: bool,
    parent_exists: bool,
)
    ensures
        dest_exists ==> spec_restore_action(has_parent, dest_exists, parent_exists)
            != RestoreAction::CloneInto,
        dest_exists ==> spec_restore_action(has_parent, dest_exists, parent_exists)
            != RestoreAction::MakeParentThenClone,
{
}

/// Where a record is restored to: under a destination override the
/// repository is rebased to its final path component below the override
/// directory; without one it goes back to its recorded location.
pub fn restore_destination(location: &str, dist: Option<&str>) -> (d: String)
    ensures
        match dist {
            Some(b) => d@ == spec_join(b@, spec_last_component(location@)),
            None => d@ == location@,
        },
{
    match dist {
        None => String::from_str(location),
        Some(b) => {
            let leaf = last_component(location);
            join_path(b, leaf.as_str())
        },
    }
}

/// The manifest's default file name.
pub open spec fn repofile_name() -> Seq<char> {
    seq!['R', 'e', 'p', 'o', 'f', 'i', 'l', 'e']
}

/// Where the manifest file stands for a restore: `conf` itself when its
/// final component is already the default manifest file name, else the
/// default name under `conf`.
pub fn manifest_file_path(conf: &str) -> (r: String)
    ensures
        r@ == (if spec_last_component(conf@) == repofile_name() {
            conf@
        } else {
            spec_join(conf@, repofile_name())
        }),
{
    proof {
        reveal_strlit("Repofile");
        assert("Repofile"@ =~= repofile_name());
    }
    let leaf = last_component(conf);
    let target = String::from_str("Repofile");
    if leaf.eq(&target) {
        String::from_str(conf)
    } else {
        join_path(conf, "Repofile")
    }
}

/// One enumerate line: the record's URL, then its location indented on
/// a continuation line.
pub fn render_list_entry(p: &Pack) -> (s: String)
    ensures
        s@ == p@.url + " \n   => "@ + p@.path,
{
    let mut out = String::new();
    out.append(p.url().as_str());
    out.append(" \n   => ");
    out.append(p.path().as_str());
    proof {
        assert(out@ =~= p@.url + " \n   => "@ + p@.path);
    }
    out
}

} // verus!
