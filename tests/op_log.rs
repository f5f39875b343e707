use oplog::error::OpLogError;
use oplog::op_store::{Operation, OperationMetadata, OpStore, ROOT_OPERATION_ID};
use oplog::repo::{IntegrateOutcome, Repo};
use oplog::view::{check_referents, merge_views, RefTarget, RepoView, WorkspacePosition};
use oplog::git_export::GitExportStats;
use oplog::{cmd_git_export, GitExportArgs};

fn meta(description: &str, time: i64) -> OperationMetadata {
    OperationMetadata {
        description: description.to_string(),
        author: "test-username@host.example.com".to_string(),
        start_time: time,
        end_time: time,
    }
}

/// The commit ids that commit storage resolves in these tests.
fn resolvable() -> Vec<u64> {
    (0..10).collect()
}

fn new_repo() -> Repo {
    Repo::init(meta("", 0))
}

/// Runs a command that adds the default workspace, as a fresh repository does.
fn add_default_workspace(repo: &mut Repo) -> u64 {
    let mut tx = repo.start_transaction();
    tx.set_workspace_position("default".to_string(), 0, 1);
    tx.commit(repo, meta("add workspace 'default'", 7)).unwrap()
}

fn parents_of(repo: &Repo, id: u64) -> Vec<u64> {
    repo.store().get_operation(id).unwrap().parent_ids.clone()
}

fn description_of(repo: &Repo, id: u64) -> String {
    repo.store().get_operation(id).unwrap().metadata.description.clone()
}

#[test]
fn test_integrate_integrated_operation() {
    let mut repo = new_repo();
    let head = add_default_workspace(&mut repo);
    let n_ops = repo.store().num_operations();

    let output = repo.integrate(head, &resolvable(), meta("reconcile divergent operations", 8));
    assert_eq!(output, Ok(IntegrateOutcome::AlreadyIntegrated));
    assert_eq!(repo.head_ids(), vec![head]);
    assert_eq!(repo.store().num_operations(), n_ops);
    assert_eq!(parents_of(&repo, head), vec![ROOT_OPERATION_ID]);
    assert_eq!(description_of(&repo, head), "add workspace 'default'");
}

#[test]
fn test_integrate_sibling_operation() {
    let mut repo = new_repo();
    let base_op_id = add_default_workspace(&mut repo);

    let tx = repo.start_transaction();
    let unintegrated_id = tx.commit(&mut repo, meta("new empty commit", 8)).unwrap();
    assert_ne!(unintegrated_id, base_op_id);
    // Put the base operation back as the head, dropping the last operation
    // from the head set.
    assert_eq!(repo.update_heads(&vec![unintegrated_id], base_op_id), Ok(()));
    assert_eq!(repo.head_ids(), vec![base_op_id]);

    let mut tx = repo.start_transaction();
    tx.add_head_commit(2);
    let second = tx.commit(&mut repo, meta("new empty commit", 9)).unwrap();
    assert_eq!(repo.head_ids(), vec![second]);

    // The working copy is at the unintegrated sibling operation.
    assert_eq!(
        repo.check_checkout(second, unintegrated_id),
        Err(OpLogError::OperationDivergence { loaded: second, checkout: unintegrated_id })
    );

    let output = repo.integrate(unintegrated_id, &resolvable(), meta("reconcile divergent operations", 11));
    let merge = match output {
        Ok(IntegrateOutcome::Merged { op_id }) => op_id,
        other => panic!("unexpected outcome {:?}", other),
    };
    assert_eq!(repo.head_ids(), vec![merge]);
    assert_eq!(parents_of(&repo, merge), vec![second, unintegrated_id]);
    assert_eq!(description_of(&repo, merge), "reconcile divergent operations");
    assert_eq!(parents_of(&repo, unintegrated_id), vec![base_op_id]);
    assert_eq!(parents_of(&repo, second), vec![base_op_id]);
    assert_eq!(parents_of(&repo, base_op_id), vec![ROOT_OPERATION_ID]);
    assert_eq!(repo.check_checkout(merge, unintegrated_id), Ok(()));
}

#[test]
fn fresh_repo_has_root_as_only_head() {
    let repo = new_repo();
    assert_eq!(repo.head_ids(), vec![ROOT_OPERATION_ID]);
    assert_eq!(repo.store().num_operations(), 1);
    assert_eq!(parents_of(&repo, ROOT_OPERATION_ID), Vec::<u64>::new());
}

#[test]
fn stale_command_diverges_then_integrate_merges() {
    let mut repo = new_repo();
    let stale = repo.start_transaction();
    let a = add_default_workspace(&mut repo);
    assert_eq!(repo.head_ids(), vec![a]);
    assert_eq!(parents_of(&repo, a), vec![ROOT_OPERATION_ID]);

    let b = stale.commit(&mut repo, meta("new empty commit", 9)).unwrap();
    assert_ne!(a, b);
    assert_eq!(repo.head_ids(), vec![a, b]);
    assert_eq!(parents_of(&repo, b), vec![ROOT_OPERATION_ID]);

    let c = match repo.integrate(b, &resolvable(), meta("reconcile divergent operations", 10)) {
        Ok(IntegrateOutcome::Merged { op_id }) => op_id,
        other => panic!("unexpected outcome {:?}", other),
    };
    assert_eq!(parents_of(&repo, c), vec![a, b]);
    assert_eq!(repo.head_ids(), vec![c]);
}

#[test]
fn rewritten_checkout_to_sibling_fails_without_change() {
    let mut repo = new_repo();
    let stale = repo.start_transaction();
    let a = add_default_workspace(&mut repo);
    let b = stale.commit(&mut repo, meta("new empty commit", 9)).unwrap();
    let merged = repo.reconcile(meta("reconcile divergent operations", 10));
    assert_eq!(repo.head_ids(), vec![merged]);
    let n_ops = repo.store().num_operations();

    assert_eq!(
        repo.check_checkout(a, b),
        Err(OpLogError::OperationDivergence { loaded: a, checkout: b })
    );
    assert_eq!(repo.head_ids(), vec![merged]);
    assert_eq!(repo.store().num_operations(), n_ops);
    assert_eq!(repo.check_checkout(merged, a), Ok(()));
    assert_eq!(repo.check_checkout(a, merged), Ok(()));
    assert_eq!(repo.check_checkout(a, 99), Err(OpLogError::NotFound));
}

#[test]
fn integrate_true_sibling_collapses_heads() {
    let mut repo = new_repo();
    let head = add_default_workspace(&mut repo);
    // A sibling stored beside the head and then dropped from the head set.
    let mut tx = repo.start_transaction();
    tx.add_ref("main".to_string(), 5);
    let sibling = tx.commit(&mut repo, meta("sibling", 9)).unwrap();
    assert_eq!(repo.update_heads(&vec![sibling], head), Ok(()));
    let mut tx = repo.start_transaction();
    tx.add_head_commit(3);
    let current = tx.commit(&mut repo, meta("current", 10)).unwrap();
    assert_eq!(repo.head_ids(), vec![current]);
    assert!(!repo.is_ancestor_of(sibling, current));
    assert!(!repo.is_ancestor_of(current, sibling));

    let c = match repo.integrate(sibling, &resolvable(), meta("reconcile divergent operations", 11)) {
        Ok(IntegrateOutcome::Merged { op_id }) => op_id,
        other => panic!("unexpected outcome {:?}", other),
    };
    assert_eq!(parents_of(&repo, c), vec![current, sibling]);
    assert_eq!(repo.head_ids(), vec![c]);
    let view_id = repo.store().get_operation(c).unwrap().view_id;
    let view = repo.store().get_view(view_id).unwrap();
    assert_eq!(view.refs.len(), 1);
    assert_eq!(view.refs[0].name, "main");
    assert_eq!(view.refs[0].target, 5);
    assert_eq!(view.head_commit_ids, vec![3]);
    assert_eq!(view.workspace_positions.len(), 1);
    assert_eq!(view.workspace_positions[0].workspace, "default");
}

#[test]
fn integrate_descendant_of_all_heads_fast_forwards() {
    let mut repo = new_repo();
    let head = add_default_workspace(&mut repo);
    let tx = repo.start_transaction();
    let child = tx.commit(&mut repo, meta("child", 8)).unwrap();
    assert_eq!(repo.update_heads(&vec![child], head), Ok(()));
    let n_ops = repo.store().num_operations();

    assert_eq!(repo.integrate(child, &resolvable(), meta("reconcile", 9)), Ok(IntegrateOutcome::FastForwarded));
    assert_eq!(repo.head_ids(), vec![child]);
    assert_eq!(repo.store().num_operations(), n_ops);
}

#[test]
fn integrate_unknown_operation_is_not_found() {
    let mut repo = new_repo();
    add_default_workspace(&mut repo);
    let heads = repo.head_ids();
    assert_eq!(repo.integrate(42, &resolvable(), meta("reconcile", 9)), Err(OpLogError::NotFound));
    assert_eq!(repo.head_ids(), heads);
}

#[test]
fn concurrent_commits_keep_both_heads() {
    let mut repo = new_repo();
    let start = add_default_workspace(&mut repo);
    let mut tx1 = repo.start_transaction();
    let mut tx2 = repo.start_transaction();
    tx1.add_ref("one".to_string(), 1);
    tx2.add_ref("two".to_string(), 2);
    let a = tx1.commit(&mut repo, meta("first", 8)).unwrap();
    let b = tx2.commit(&mut repo, meta("second", 8)).unwrap();
    assert_ne!(a, b);
    assert_eq!(repo.head_ids(), vec![a, b]);
    assert_eq!(parents_of(&repo, a), vec![start]);
    assert_eq!(parents_of(&repo, b), vec![start]);

    let merged = repo.reconcile(meta("reconcile divergent operations", 9));
    assert_eq!(repo.head_ids(), vec![merged]);
    assert_eq!(parents_of(&repo, merged), vec![a, b]);
    let tx = repo.start_transaction();
    let refs = &tx.view().refs;
    assert_eq!(refs.len(), 2);
    assert_eq!(refs[0].name, "one");
    assert_eq!(refs[1].name, "two");
}

#[test]
fn identical_commit_twice_gives_same_id_and_one_head() {
    let mut repo = new_repo();
    add_default_workspace(&mut repo);
    let tx1 = repo.start_transaction();
    let tx2 = repo.start_transaction();
    let a = tx1.commit(&mut repo, meta("same", 8)).unwrap();
    let n_ops = repo.store().num_operations();
    let b = tx2.commit(&mut repo, meta("same", 8)).unwrap();
    assert_eq!(a, b);
    assert_eq!(repo.store().num_operations(), n_ops);
    assert_eq!(repo.head_ids(), vec![a]);
}

#[test]
fn storing_identical_objects_twice_is_idempotent() {
    let mut store = OpStore::new(meta("", 0));
    let mut view = RepoView::empty();
    view.add_ref("main".to_string(), 4);
    let v1 = store.put_view(view.copied());
    let v2 = store.put_view(view.copied());
    assert_eq!(v1, 1);
    assert_eq!(v1, v2);
    assert_eq!(store.num_views(), 2);
    assert_eq!(store.put_view(RepoView::empty()), 0);

    let op = Operation { view_id: v1, parent_ids: vec![0], metadata: meta("op", 1) };
    let o1 = store.put_operation(op.copied()).unwrap();
    let o2 = store.put_operation(op.copied()).unwrap();
    assert_eq!(o1, 1);
    assert_eq!(o1, o2);
    assert_eq!(store.num_operations(), 2);
}

#[test]
fn operations_need_stored_parents() {
    let mut store = OpStore::new(meta("", 0));
    let forward = Operation { view_id: 0, parent_ids: vec![0, 5], metadata: meta("op", 1) };
    assert_eq!(store.put_operation(forward), Err(OpLogError::NotFound));
    let orphan = Operation { view_id: 0, parent_ids: vec![], metadata: meta("op", 1) };
    assert_eq!(store.put_operation(orphan), Err(OpLogError::NotFound));
    let no_view = Operation { view_id: 3, parent_ids: vec![0], metadata: meta("op", 1) };
    assert_eq!(store.put_operation(no_view), Err(OpLogError::NotFound));
    assert_eq!(store.num_operations(), 1);
    let ok = Operation { view_id: 0, parent_ids: vec![0], metadata: meta("op", 1) };
    let id = store.put_operation(ok).unwrap();
    let next = Operation { view_id: 0, parent_ids: vec![id, 0], metadata: meta("op2", 2) };
    let id2 = store.put_operation(next).unwrap();
    assert!(store.is_ancestor_of(0, id2));
    assert!(store.is_ancestor_of(id, id2));
    assert!(!store.is_ancestor_of(id2, id));
    assert!(store.is_ancestor_of(id2, id2));
    assert!(store.get_operation(9).is_err());
    assert!(store.get_view(9).is_err());
}

#[test]
fn update_heads_detects_lost_race() {
    let mut repo = new_repo();
    let a = add_default_workspace(&mut repo);
    assert_eq!(
        repo.update_heads(&vec![ROOT_OPERATION_ID], a),
        Err(OpLogError::ConcurrentModification)
    );
    assert_eq!(repo.head_ids(), vec![a]);
    assert_eq!(repo.update_heads(&vec![a], 77), Err(OpLogError::NotFound));
    assert_eq!(repo.update_heads(&vec![a], ROOT_OPERATION_ID), Ok(()));
    assert_eq!(repo.head_ids(), vec![ROOT_OPERATION_ID]);
}

#[test]
fn commit_against_other_repo_is_not_found() {
    let mut big = new_repo();
    add_default_workspace(&mut big);
    let tx = big.start_transaction();
    let mut small = new_repo();
    assert_eq!(tx.commit(&mut small, meta("x", 1)), Err(OpLogError::NotFound));
    assert_eq!(small.head_ids(), vec![ROOT_OPERATION_ID]);
    assert_eq!(small.store().num_operations(), 1);
}

#[test]
fn merge_views_is_union_of_components() {
    let mut a = RepoView::empty();
    a.add_ref("main".to_string(), 1);
    a.add_head_commit(1);
    a.set_workspace_position("default".to_string(), 3, 1);
    let mut b = RepoView::empty();
    b.add_ref("main".to_string(), 2);
    b.add_ref("main".to_string(), 1);
    b.add_head_commit(2);
    b.add_head_commit(1);
    let m = merge_views(&a, &b);
    let refs: Vec<(String, u64)> = m.refs.iter().map(|r| (r.name.clone(), r.target)).collect();
    assert_eq!(refs, vec![("main".to_string(), 1), ("main".to_string(), 2)]);
    assert_eq!(m.head_commit_ids, vec![1, 2]);
    assert_eq!(m.workspace_positions.len(), 1);
    assert_eq!(m.workspace_positions[0].op_id, 3);
}

#[test]
fn workspace_position_is_replaced() {
    let mut v = RepoView::empty();
    v.set_workspace_position("default".to_string(), 1, 1);
    v.set_workspace_position("other".to_string(), 1, 2);
    v.set_workspace_position("default".to_string(), 4, 5);
    let entries: Vec<(String, u64, u64)> =
        v.workspace_positions.iter().map(|w| (w.workspace.clone(), w.op_id, w.commit_id)).collect();
    assert_eq!(entries, vec![("other".to_string(), 1, 2), ("default".to_string(), 4, 5)]);
    let same = WorkspacePosition { workspace: "other".to_string(), op_id: 1, commit_id: 2 };
    assert!(same.same_as(&v.workspace_positions[0]));
    let r = RefTarget { name: "x".to_string(), target: 1 };
    assert!(!r.same_as(&RefTarget { name: "y".to_string(), target: 1 }));
}

#[test]
fn unresolvable_commit_is_missing_referent() {
    let mut v = RepoView::empty();
    v.add_ref("main".to_string(), 10);
    v.add_head_commit(11);
    v.set_workspace_position("default".to_string(), 0, 12);
    assert_eq!(check_referents(&v, &vec![10, 11, 12]), Ok(()));
    assert_eq!(check_referents(&v, &vec![11, 12]), Err(OpLogError::MissingReferent));
    assert_eq!(check_referents(&v, &vec![10, 12]), Err(OpLogError::MissingReferent));
    assert_eq!(check_referents(&v, &vec![10, 11]), Err(OpLogError::MissingReferent));
    assert_eq!(check_referents(&RepoView::empty(), &vec![]), Ok(()));
}

fn export_ok() -> Result<GitExportStats, String> {
    Ok(GitExportStats { exported: 0, failed: 0 })
}

fn run_export(repo: &mut Repo, checkout: u64) -> Result<u64, OpLogError> {
    cmd_git_export(repo, &GitExportArgs {}, checkout, &export_ok(), "someone".to_string(), 1, 2)
}

#[test]
fn git_export_records_an_operation() {
    let mut repo = new_repo();
    let head = add_default_workspace(&mut repo);
    let id = run_export(&mut repo, head).unwrap();
    assert_eq!(description_of(&repo, id), "export git refs");
    assert_eq!(parents_of(&repo, id), vec![head]);
    assert_eq!(repo.head_ids(), vec![id]);
    let view_of = |op: u64| repo.store().get_operation(op).unwrap().view_id;
    assert_eq!(view_of(id), view_of(head));
}

#[test]
fn git_export_twice_reuses_the_view() {
    let mut repo = new_repo();
    let head = add_default_workspace(&mut repo);
    let first = run_export(&mut repo, head).unwrap();
    let n_views = repo.store().num_views();
    let second = run_export(&mut repo, first).unwrap();
    assert_ne!(first, second);
    assert_eq!(repo.store().num_views(), n_views);
    let view_of = |op: u64| repo.store().get_operation(op).unwrap().view_id;
    assert_eq!(view_of(first), view_of(second));
    assert_eq!(repo.head_ids(), vec![second]);
}

#[test]
fn git_export_fails_on_sibling_checkout_without_change() {
    let mut repo = new_repo();
    let base = add_default_workspace(&mut repo);
    let tx = repo.start_transaction();
    let sibling = tx.commit(&mut repo, meta("new empty commit", 8)).unwrap();
    assert_eq!(repo.update_heads(&vec![sibling], base), Ok(()));
    let mut tx = repo.start_transaction();
    tx.add_head_commit(2);
    let head = tx.commit(&mut repo, meta("new empty commit", 9)).unwrap();
    let n_ops = repo.store().num_operations();
    let n_views = repo.store().num_views();

    assert_eq!(
        run_export(&mut repo, sibling),
        Err(OpLogError::OperationDivergence { loaded: head, checkout: sibling })
    );
    assert_eq!(repo.head_ids(), vec![head]);
    assert_eq!(repo.store().num_operations(), n_ops);
    assert_eq!(repo.store().num_views(), n_views);
    assert_eq!(run_export(&mut repo, 50), Err(OpLogError::NotFound));
    assert_eq!(repo.head_ids(), vec![head]);
}

#[test]
fn git_export_failure_commits_nothing() {
    let mut repo = new_repo();
    let head = add_default_workspace(&mut repo);
    let n_ops = repo.store().num_operations();
    let failed: Result<GitExportStats, String> = Err("cannot write refs".to_string());
    let r = cmd_git_export(&mut repo, &GitExportArgs {}, head, &failed, "someone".to_string(), 1, 2);
    assert_eq!(r, Err(OpLogError::ExportFailed));
    assert_eq!(repo.head_ids(), vec![head]);
    assert_eq!(repo.store().num_operations(), n_ops);
}

#[test]
fn git_export_with_partial_failures_still_commits() {
    let mut repo = new_repo();
    let head = add_default_workspace(&mut repo);
    let partial: Result<GitExportStats, String> = Ok(GitExportStats { exported: 2, failed: 1 });
    let id = cmd_git_export(&mut repo, &GitExportArgs {}, head, &partial, "someone".to_string(), 1, 2)
        .unwrap();
    assert_eq!(repo.head_ids(), vec![id]);
}

#[test]
fn git_export_after_integrating_sibling() {
    let mut repo = new_repo();
    let head = add_default_workspace(&mut repo);
    let mut tx = repo.start_transaction();
    tx.add_ref("main".to_string(), 5);
    let sibling = tx.commit(&mut repo, meta("sibling", 9)).unwrap();
    assert_eq!(repo.update_heads(&vec![sibling], head), Ok(()));
    let mut tx = repo.start_transaction();
    tx.add_head_commit(3);
    let current = tx.commit(&mut repo, meta("current", 10)).unwrap();
    let n_ops = repo.store().num_operations();
    let c = match repo.integrate(sibling, &resolvable(), meta("reconcile divergent operations", 11)) {
        Ok(IntegrateOutcome::Merged { op_id }) => op_id,
        other => panic!("unexpected outcome {:?}", other),
    };
    assert_eq!(parents_of(&repo, c), vec![current, sibling]);
    let o = run_export(&mut repo, sibling).unwrap();
    assert_eq!(parents_of(&repo, o), vec![c]);
    assert_eq!(repo.head_ids(), vec![o]);
    assert_eq!(repo.store().num_operations(), n_ops + 2);
}

#[test]
fn git_export_after_integrating_ancestor() {
    let mut repo = new_repo();
    let head = add_default_workspace(&mut repo);
    let n_ops = repo.store().num_operations();
    assert_eq!(
        repo.integrate(ROOT_OPERATION_ID, &resolvable(), meta("reconcile", 8)),
        Ok(IntegrateOutcome::AlreadyIntegrated)
    );
    assert_eq!(repo.head_ids(), vec![head]);
    let o = run_export(&mut repo, head).unwrap();
    assert_eq!(parents_of(&repo, o), vec![head]);
    assert_eq!(repo.head_ids(), vec![o]);
    assert_eq!(repo.store().num_operations(), n_ops + 1);
}

#[test]
fn integrate_with_unresolvable_commit_is_missing_referent() {
    let mut repo = new_repo();
    let head = add_default_workspace(&mut repo);
    let mut tx = repo.start_transaction();
    tx.add_ref("main".to_string(), 42);
    let sibling = tx.commit(&mut repo, meta("sibling", 9)).unwrap();
    assert_eq!(repo.update_heads(&vec![sibling], head), Ok(()));
    let tx = repo.start_transaction();
    let current = tx.commit(&mut repo, meta("current", 10)).unwrap();
    let n_ops = repo.store().num_operations();

    let r = repo.integrate(sibling, &resolvable(), meta("reconcile", 11));
    assert_eq!(r, Err(OpLogError::MissingReferent));
    assert_eq!(repo.head_ids(), vec![current]);
    assert_eq!(repo.store().num_operations(), n_ops);
    let with_42: Vec<u64> = vec![1, 42];
    assert!(matches!(
        repo.integrate(sibling, &with_42, meta("reconcile", 11)),
        Ok(IntegrateOutcome::Merged { .. })
    ));
}
