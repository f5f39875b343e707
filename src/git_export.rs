use vstd::prelude::*;

use crate::error::OpLogError;
use crate::op_store::{is_ancestor, ops_after_put, views_after_put, OperationMetadata, OperationModel};
use crate::repo::{heads_after_commit, view_of, views_of, Repo};
use crate::view::merges;

verus! {

/// Arguments of the command that records an export of the refs to the
/// underlying Git repo. It takes no options.
pub struct GitExportArgs {}

/// What the export of the refs to the Git repo reported: how many refs it
/// wrote and how many it could not write.
pub struct GitExportStats {
    pub exported: u64,
    pub failed: u64,
}

/// The workspace's recorded operation `checkout` is on another branch of the
/// log: no head is an ancestor of it, and it is an ancestor of no head.
pub open spec fn checkout_diverges(ops: Seq<OperationModel>, heads: Seq<u64>, checkout: u64) -> bool {
    forall|i: int|
        0 <= i < heads.len() ==> !is_ancestor(ops, checkout as int, #[trigger] heads[i] as int)
            && !is_ancestor(ops, heads[i] as int, checkout as int)
}

/// Runs the export command on the log. It first checks the workspace's
/// recorded operation `checkout` against the heads: where that operation is
/// not stored it fails with `NotFound`, and where it diverges from them it
/// fails with `OperationDivergence`, naming the loaded head and `checkout`.
/// Then it takes the outcome of the export that the caller ran against the
/// refs of the current view: where the export failed it fails with
/// `ExportFailed`. Each failure leaves the log unchanged. Otherwise it
/// commits an "export git refs" operation on the current heads, with their
/// view, which becomes the only head; the caller records the returned id as
/// the workspace's new checkout. Refs that the export could not write
/// (`failed` in the stats) do not fail the command.
pub fn cmd_git_export(
    repo: &mut Repo,
    _args: &GitExportArgs,
    checkout: u64,
    export: &Result<GitExportStats, String>,
    author: String,
    start_time: i64,
    end_time: i64,
) -> (r: Result<u64, OpLogError>)
    requires
        old(repo).wf(),
    ensures
        final(repo).wf(),
        r is Err ==> *final(repo) == *old(repo),
        checkout >= old(repo).ops().len() ==> r == Err::<u64, OpLogError>(OpLogError::NotFound),
        checkout < old(repo).ops().len() && checkout_diverges(old(repo).ops(), old(repo).heads(), checkout)
            ==> r == Err::<u64, OpLogError>(
            OpLogError::OperationDivergence { loaded: old(repo).heads()[0], checkout },
        ),
        checkout < old(repo).ops().len() && !checkout_diverges(old(repo).ops(), old(repo).heads(), checkout)
            && export is Err ==> r == Err::<u64, OpLogError>(OpLogError::ExportFailed),
        checkout < old(repo).ops().len() && !checkout_diverges(old(repo).ops(), old(repo).heads(), checkout)
            && export is Ok ==> r is Ok,
        r matches Ok(id) ==> {
            &&& id < final(repo).ops().len()
            &&& final(repo).ops() == ops_after_put(old(repo).ops(), final(repo).ops()[id as int])
            &&& final(repo).views() == views_after_put(
                old(repo).views(),
                view_of(final(repo).ops(), final(repo).views(), id),
            )
            &&& final(repo).ops()[id as int].parents == old(repo).heads()
            &&& final(repo).ops()[id as int].description == "export git refs"@
            &&& final(repo).ops()[id as int].author == author@
            &&& final(repo).ops()[id as int].start_time == start_time
            &&& final(repo).ops()[id as int].end_time == end_time
            &&& final(repo).heads().to_set() == set![id]
            &&& old(repo).heads().len() == 1 ==> view_of(final(repo).ops(), final(repo).views(), id)
                == view_of(old(repo).ops(), old(repo).views(), old(repo).heads()[0])
            &&& old(repo).heads().len() != 1 ==> merges(
                view_of(final(repo).ops(), final(repo).views(), id),
                views_of(old(repo).ops(), old(repo).views(), old(repo).heads()),
            )
        },
{
    let n = repo.store().num_operations();
    if checkout >= n {
        return Err(OpLogError::NotFound);
    }
    let heads = repo.head_ids();
    proof {
        repo.lemma_wf();
    }
    let ghost ops = repo.ops();
    let mut related = false;
    let mut i: usize = 0;
    while i < heads.len()
        invariant
            i <= heads.len(),
            repo.wf(),
            *repo == *old(repo),
            ops == repo.ops(),
            heads@ == repo.heads(),
            checkout < ops.len(),
            forall|k: int| 0 <= k < heads.len() ==> #[trigger] heads@[k] < ops.len(),
            related == exists|k: int|
                0 <= k < i && (is_ancestor(ops, checkout as int, #[trigger] heads@[k] as int)
                    || is_ancestor(ops, heads@[k] as int, checkout as int)),
        decreases heads.len() - i,
    {
        if repo.is_ancestor_of(checkout, heads[i]) || repo.is_ancestor_of(heads[i], checkout) {
            related = true;
        }
        i += 1;
    }
    if !related {
        return Err(OpLogError::OperationDivergence { loaded: heads[0], checkout });
    }
    if export.is_err() {
        return Err(OpLogError::ExportFailed);
    }
    let tx = repo.start_transaction();
    let description = "export git refs".to_owned();
    let metadata = OperationMetadata { description, author, start_time, end_time };
    let ghost old_repo = *repo;
    let r = tx.commit(repo, metadata);
    proof {
        if let Ok(id) = r {
            assert(heads_after_commit(old_repo.heads().to_set(), old_repo.heads().to_set(), id)
                =~= set![id]);
        }
    }
    r
}

} // verus!
