use vstd::prelude::*;

use crate::error::OpLogError;
use crate::op_heads::{heads_after_update, OpHeadsStore};
use crate::op_store::{
    is_ancestor, ops_after_put, ops_well_formed, views_after_put, Operation, OperationMetadata, OperationModel, OpStore,
    ROOT_OPERATION_ID,
};
use crate::view::{check_referents, copy_ids, referents_resolve, is_union, lemma_merges_push, merge_views, merges, RepoView, ViewModel};

verus! {

/// The view that operation `id` refers to.
pub open spec fn view_of(ops: Seq<OperationModel>, views: Seq<ViewModel>, id: u64) -> ViewModel {
    views[ops[id as int].view_id as int]
}

/// The views of the operations `ids`, in their order.
pub open spec fn views_of(ops: Seq<OperationModel>, views: Seq<ViewModel>, ids: Seq<u64>) -> Seq<
    ViewModel,
> {
    ids.map_values(|id: u64| view_of(ops, views, id))
}

/// The head set that a commit based on `base` leaves behind: the base heads
/// that are still heads give way to the new operation, other heads stay.
pub open spec fn heads_after_commit(heads: Set<u64>, base: Set<u64>, id: u64) -> Set<u64> {
    heads.difference(base).insert(id)
}

/// Whether operation `op` is already covered by one of `heads`.
pub open spec fn is_covered(ops: Seq<OperationModel>, heads: Seq<u64>, op: u64) -> bool {
    exists|i: int| 0 <= i < heads.len() && is_ancestor(ops, op as int, #[trigger] heads[i] as int)
}

/// Heads that `op` does not already include.
pub open spec fn not_included_in(ops: Seq<OperationModel>, op: u64) -> spec_fn(u64) -> bool {
    |h: u64| !is_ancestor(ops, h as int, op as int)
}

/// The parents of the operation that integrating `op` creates: where `op` is
/// covered by a head, all heads (the log is reconciled); otherwise the heads
/// that `op` does not include, in their order, followed by `op`.
pub open spec fn integrate_parents(ops: Seq<OperationModel>, heads: Seq<u64>, op: u64) -> Seq<u64> {
    if is_covered(ops, heads, op) {
        heads
    } else {
        heads.filter(not_included_in(ops, op)).push(op)
    }
}

/// Integrating an operation that is a true sibling of the only head (neither
/// includes the other) merges exactly the two: the head first, then it.
pub proof fn lemma_integrate_sibling(ops: Seq<OperationModel>, head: u64, op: u64)
    requires
        !is_ancestor(ops, op as int, head as int),
        !is_ancestor(ops, head as int, op as int),
    ensures
        integrate_parents(ops, seq![head], op) == seq![head, op],
{
    let heads = seq![head];
    assert(!is_covered(ops, heads, op)) by {
        if is_covered(ops, heads, op) {
            let i = choose|i: int| 0 <= i < heads.len() && is_ancestor(ops, op as int, #[trigger] heads[i] as int);
            assert(heads[i] == head);
        }
    }
    reveal_with_fuel(Seq::filter, 2);
    assert(heads.drop_last() =~= Seq::<u64>::empty());
    assert(heads.filter(not_included_in(ops, op)) =~= seq![head]);
    assert(seq![head].push(op) =~= seq![head, op]);
}

/// Two commits based on the same heads, the second unaware of the first,
/// leave both new operations as heads beside every head outside the base:
/// no head is lost, and none is recorded twice (heads form a set).
pub proof fn lemma_concurrent_commits(heads: Set<u64>, base: Set<u64>, a: u64, b: u64)
    requires
        !base.contains(a),
        !base.contains(b),
    ensures
        heads_after_commit(heads_after_commit(heads, base, a), base, b) == heads.difference(
            base,
        ).insert(a).insert(b),
        heads_after_commit(heads_after_commit(heads, base, a), base, b).contains(a),
        heads_after_commit(heads_after_commit(heads, base, a), base, b).contains(b),
        forall|x: u64|
            heads.contains(x) && !base.contains(x) ==> #[trigger] heads_after_commit(
                heads_after_commit(heads, base, a),
                base,
                b,
            ).contains(x),
{
    assert(heads_after_commit(heads_after_commit(heads, base, a), base, b) =~= heads.difference(
        base,
    ).insert(a).insert(b));
}

/// Committing an identical operation again, on the same base, leaves the
/// head set as the first commit left it.
pub proof fn lemma_recommit_keeps_heads(heads: Set<u64>, base: Set<u64>, id: u64)
    requires
        !base.contains(id),
    ensures
        heads_after_commit(heads_after_commit(heads, base, id), base, id) == heads_after_commit(
            heads,
            base,
            id,
        ),
{
    assert(heads_after_commit(heads_after_commit(heads, base, id), base, id) =~= heads_after_commit(
        heads,
        base,
        id,
    ));
}

/// Every commit id that the views `vs` refer to is among `resolvable`.
pub open spec fn views_resolve(vs: Seq<ViewModel>, resolvable: Seq<u64>) -> bool {
    forall|i: int| 0 <= i < vs.len() ==> referents_resolve(#[trigger] vs[i], resolvable)
}

/// What integrating an operation did.
#[derive(PartialEq, Eq, Structural, Debug, Clone, Copy)]
pub enum IntegrateOutcome {
    /// The operation was already part of the only head: nothing changed.
    AlreadyIntegrated,
    /// Every head was an ancestor of the operation: it became the only head.
    FastForwarded,
    /// A merge operation with the given id became the only head.
    Merged { op_id: u64 },
}

/// An operation log: the operation store and the current head set.
pub struct Repo {
    store: OpStore,
    op_heads: OpHeadsStore,
}

impl Repo {
    /// The stored operations, by id.
    pub closed spec fn ops(&self) -> Seq<OperationModel> {
        self.store.ops()
    }

    /// The stored views, by id.
    pub closed spec fn views(&self) -> Seq<ViewModel> {
        self.store.views()
    }

    /// The current heads.
    pub closed spec fn heads(&self) -> Seq<u64> {
        self.op_heads.heads()
    }

    /// The store is a rooted DAG, the head set is a non-empty set of stored
    /// operations.
    pub closed spec fn wf(&self) -> bool {
        &&& self.store.wf()
        &&& self.op_heads.wf()
        &&& forall|i: int| 0 <= i < self.heads().len() ==> #[trigger] self.heads()[i] < self.ops().len()
    }

    /// What a well-formed log guarantees its callers.
    pub proof fn lemma_wf(&self)
        requires
            self.wf(),
        ensures
            self.ops().len() >= 1,
            self.heads().len() >= 1,
            self.heads().no_duplicates(),
            self.ops()[0].parents.len() == 0,
            ops_well_formed(self.ops(), self.views().len() as int),
            forall|i: int| 0 <= i < self.heads().len() ==> #[trigger] self.heads()[i] < self.ops().len(),
            forall|i: int| 0 <= i < self.ops().len() ==> #[trigger] self.ops()[i].view_id < self.views().len(),
    {
    }

    /// A fresh log: the root operation, with an empty view, is the only head.
    pub fn init(root_metadata: OperationMetadata) -> (r: Repo)
        ensures
            r.wf(),
            r.ops().len() == 1,
            r.views().len() == 1,
            r.heads() == seq![ROOT_OPERATION_ID],
            r.ops()[0].parents.len() == 0,
            r.ops()[0].view_id == 0,
            r.views()[0].refs.len() == 0,
            r.views()[0].heads.len() == 0,
            r.views()[0].positions.len() == 0,
            r.ops()[0].description == root_metadata.description@,
            r.ops()[0].author == root_metadata.author@,
            r.ops()[0].start_time == root_metadata.start_time,
            r.ops()[0].end_time == root_metadata.end_time,
    {
        let store = OpStore::new(root_metadata);
        let op_heads = OpHeadsStore::new(ROOT_OPERATION_ID);
        Repo { store, op_heads }
    }

    /// The operation store.
    pub fn store(&self) -> (r: &OpStore)
        requires
            self.wf(),
        ensures
            r.wf(),
            r.ops() == self.ops(),
            r.views() == self.views(),
    {
        &self.store
    }

    /// The current heads.
    pub fn head_ids(&self) -> (r: Vec<u64>)
        ensures
            r@ == self.heads(),
    {
        self.op_heads.current_heads()
    }

    /// Whether operation `a` is operation `b` or one of its ancestors.
    pub fn is_ancestor_of(&self, a: u64, b: u64) -> (r: bool)
        requires
            self.wf(),
            b < self.ops().len(),
        ensures
            r == is_ancestor(self.ops(), a as int, b as int),
    {
        self.store.is_ancestor_of(a, b)
    }

    /// The structural merge of the views of the operations `ids`.
    pub fn merged_view_of(&self, ids: &Vec<u64>) -> (r: RepoView)
        requires
            self.wf(),
            forall|i: int| 0 <= i < ids.len() ==> #[trigger] ids@[i] < self.ops().len(),
        ensures
            merges(r@, views_of(self.ops(), self.views(), ids@)),
    {
        let ghost ops = self.ops();
        let ghost views = self.views();
        let mut acc = RepoView::empty();
        let mut i: usize = 0;
        assert(views_of(ops, views, ids@.subrange(0, 0)) =~= Seq::<ViewModel>::empty());
        while i < ids.len()
            invariant
                i <= ids.len(),
                self.wf(),
                ops == self.ops(),
                views == self.views(),
                forall|k: int| 0 <= k < ids.len() ==> #[trigger] ids@[k] < ops.len(),
                merges(acc@, views_of(ops, views, ids@.subrange(0, i as int))),
            decreases ids.len() - i,
        {
            let op = self.store.operation(ids[i]);
            proof {
                self.lemma_wf();
                assert(self.ops()[ids@[i as int] as int].view_id < self.views().len());
            }
            let v = self.store.view(op.view_id);
            let next = merge_views(&acc, v);
            proof {
                lemma_merges_push(next@, acc@, views_of(ops, views, ids@.subrange(0, i as int)), v@);
                assert(views_of(ops, views, ids@.subrange(0, i + 1)) =~= views_of(
                    ops,
                    views,
                    ids@.subrange(0, i as int),
                ).push(v@));
            }
            acc = next;
            i += 1;
        }
        assert(ids@.subrange(0, ids.len() as int) =~= ids@);
        acc
    }

    /// Begins a transaction on the current heads. With one head its view is
    /// the base view; with several, the merge of their views.
    pub fn start_transaction(&self) -> (tx: Transaction)
        requires
            self.wf(),
        ensures
            tx.base() == self.heads(),
            self.heads().len() == 1 ==> tx.working() == view_of(
                self.ops(),
                self.views(),
                self.heads()[0],
            ),
            self.heads().len() != 1 ==> merges(tx.working(), views_of(self.ops(), self.views(), self.heads())),
    {
        let heads = self.op_heads.current_heads();
        proof {
            self.lemma_wf();
        }
        let view = if heads.len() == 1 {
            let op = self.store.operation(heads[0]);
            assert(self.ops()[heads@[0] as int].view_id < self.views().len());
            self.store.view(op.view_id).copied()
        } else {
            self.merged_view_of(&heads)
        };
        Transaction { base_heads: heads, view }
    }

    /// Replaces the heads in `remove` by the stored operation `add`, provided
    /// every one of them is still a head. Fails with `NotFound` where `add` is
    /// not stored and with `ConcurrentModification` where a head in `remove`
    /// is gone; either way nothing changes.
    pub fn update_heads(&mut self, remove: &Vec<u64>, add: u64) -> (r: Result<(), OpLogError>)
        requires
            old(self).wf(),
        ensures
            final(self).wf(),
            final(self).ops() == old(self).ops(),
            final(self).views() == old(self).views(),
            add >= old(self).ops().len() ==> r == Err::<(), OpLogError>(OpLogError::NotFound),
            add < old(self).ops().len() ==> (r is Ok <==> remove@.to_set().subset_of(
                old(self).heads().to_set(),
            )),
            add < old(self).ops().len() && r is Err ==> r == Err::<(), OpLogError>(
                OpLogError::ConcurrentModification,
            ),
            r is Ok ==> final(self).heads().to_set() == heads_after_update(
                old(self).heads(),
                remove@,
                add,
            ),
            r is Err ==> *final(self) == *old(self),
    {
        let n = self.store.num_operations();
        if add >= n {
            return Err(OpLogError::NotFound);
        }
        let ghost old_self = *self;
        let r = self.op_heads.update(remove, add);
        proof {
            if r is Ok {
                assert forall|k: int| 0 <= k < self.heads().len() implies #[trigger] self.heads()[k]
                    < self.ops().len() by {
                    let h = self.heads()[k];
                    assert(self.heads().to_set().contains(h));
                    if h != add {
                        assert(old_self.heads().to_set().contains(h));
                        let j = choose|j: int| 0 <= j < old_self.heads().len() && old_self.heads()[j] == h;
                        assert(old_self.heads()[j] < old_self.ops().len());
                    }
                }
            }
        }
        r
    }

    /// Whether every commit id in the views of `ids` is among `resolvable`.
    fn parents_resolve(&self, ids: &Vec<u64>, resolvable: &Vec<u64>) -> (r: bool)
        requires
            self.wf(),
            forall|i: int| 0 <= i < ids.len() ==> #[trigger] ids@[i] < self.ops().len(),
        ensures
            r == views_resolve(views_of(self.ops(), self.views(), ids@), resolvable@),
    {
        let ghost vs = views_of(self.ops(), self.views(), ids@);
        let mut i: usize = 0;
        while i < ids.len()
            invariant
                i <= ids.len(),
                self.wf(),
                vs == views_of(self.ops(), self.views(), ids@),
                forall|k: int| 0 <= k < ids.len() ==> #[trigger] ids@[k] < self.ops().len(),
                forall|k: int| 0 <= k < i ==> referents_resolve(#[trigger] vs[k], resolvable@),
            decreases ids.len() - i,
        {
            let op = self.store.operation(ids[i]);
            proof {
                self.lemma_wf();
                assert(self.ops()[ids@[i as int] as int].view_id < self.views().len());
            }
            let v = self.store.view(op.view_id);
            if check_referents(v, resolvable).is_err() {
                assert(!referents_resolve(vs[i as int], resolvable@));
                return false;
            }
            i += 1;
        }
        true
    }

    /// Stores the merge of the views of `parents` and an operation on those
    /// parents, and makes it the only head.
    fn merge_operation(&mut self, parents: Vec<u64>, metadata: OperationMetadata) -> (r: u64)
        requires
            old(self).wf(),
            parents.len() >= 1,
            forall|i: int| 0 <= i < parents.len() ==> #[trigger] parents@[i] < old(self).ops().len(),
        ensures
            final(self).wf(),
            r < final(self).ops().len(),
            final(self).ops() == ops_after_put(old(self).ops(), final(self).ops()[r as int]),
            final(self).views() == views_after_put(
                old(self).views(),
                view_of(final(self).ops(), final(self).views(), r),
            ),
            final(self).ops()[r as int].parents == parents@,
            merges(
                view_of(final(self).ops(), final(self).views(), r),
                views_of(old(self).ops(), old(self).views(), parents@),
            ),
            final(self).ops()[r as int].description == metadata.description@,
            final(self).ops()[r as int].author == metadata.author@,
            final(self).ops()[r as int].start_time == metadata.start_time,
            final(self).ops()[r as int].end_time == metadata.end_time,
            final(self).heads().to_set() == set![r],
    {
        let view = self.merged_view_of(&parents);
        let view_id = self.store.put_view(view);
        let op = Operation { view_id, parent_ids: parents, metadata };
        let id = match self.store.put_operation(op) {
            Ok(id) => id,
            Err(_) => {
                return 0;
            },
        };
        let heads = self.op_heads.current_heads();
        match self.op_heads.update(&heads, id) {
            Ok(()) => {},
            Err(_) => {
                return 0;
            },
        }
        proof {
            assert(self.heads().to_set() =~= set![id]);
            assert forall|k: int| 0 <= k < self.heads().len() implies #[trigger] self.heads()[k]
                < self.ops().len() by {
                assert(self.heads().to_set().contains(self.heads()[k]));
            }
        }
        id
    }

    /// Folds every head into one operation, unless there is one head already.
    pub fn reconcile(&mut self, metadata: OperationMetadata) -> (r: u64)
        requires
            old(self).wf(),
        ensures
            final(self).wf(),
            r < final(self).ops().len(),
            final(self).heads().to_set() == set![r],
            old(self).heads().len() == 1 ==> *final(self) == *old(self) && r == old(self).heads()[0],
            old(self).heads().len() != 1 ==> {
                &&& final(self).ops() == ops_after_put(old(self).ops(), final(self).ops()[r as int])
                &&& final(self).views() == views_after_put(
                    old(self).views(),
                    view_of(final(self).ops(), final(self).views(), r),
                )
                &&& final(self).ops()[r as int].description == metadata.description@
                &&& final(self).ops()[r as int].author == metadata.author@
                &&& final(self).ops()[r as int].parents == old(self).heads()
                &&& merges(
                    view_of(final(self).ops(), final(self).views(), r),
                    views_of(old(self).ops(), old(self).views(), old(self).heads()),
                )
            },
    {
        let heads = self.op_heads.current_heads();
        proof {
            self.lemma_wf();
        }
        if heads.len() == 1 {
            proof {
                assert(self.heads().to_set() =~= set![heads@[0]]) by {
                    assert forall|x: u64| self.heads().to_set().contains(x) implies x == heads@[0] by {
                        let k = choose|k: int| 0 <= k < self.heads().len() && self.heads()[k] == x;
                    }
                    assert(self.heads().to_set().contains(heads@[0]));
                }
            }
            return heads[0];
        }
        self.merge_operation(heads, metadata)
    }

    /// Folds operation `op_id` into the head set. Where it is part of the
    /// only head already, nothing changes. Otherwise a merge operation on
    /// `integrate_parents` becomes the only head, or `op_id` itself where it
    /// includes every head. Fails with `NotFound` where `op_id` is not stored,
    /// and with `MissingReferent` where a merge is needed and a commit id in
    /// the views it would merge is not among `resolvable`, the ids that
    /// commit storage resolves.
    pub fn integrate(
        &mut self,
        op_id: u64,
        resolvable: &Vec<u64>,
        metadata: OperationMetadata,
    ) -> (r: Result<IntegrateOutcome, OpLogError>)
        requires
            old(self).wf(),
        ensures
            final(self).wf(),
            (r == Err::<IntegrateOutcome, OpLogError>(OpLogError::NotFound)) <==> op_id >= old(
                self,
            ).ops().len(),
            (r == Err::<IntegrateOutcome, OpLogError>(OpLogError::MissingReferent)) <==> (op_id
                < old(self).ops().len() && !(old(self).heads().len() == 1 && is_ancestor(
                old(self).ops(),
                op_id as int,
                old(self).heads()[0] as int,
            )) && !(!is_covered(old(self).ops(), old(self).heads(), op_id) && integrate_parents(
                old(self).ops(),
                old(self).heads(),
                op_id,
            ) == seq![op_id]) && !views_resolve(
                views_of(
                    old(self).ops(),
                    old(self).views(),
                    integrate_parents(old(self).ops(), old(self).heads(), op_id),
                ),
                resolvable@,
            )),
            r is Err ==> r == Err::<IntegrateOutcome, OpLogError>(OpLogError::NotFound) || r == Err::<
                IntegrateOutcome,
                OpLogError,
            >(OpLogError::MissingReferent),
            r is Err ==> *final(self) == *old(self),
            (r == Ok::<IntegrateOutcome, OpLogError>(IntegrateOutcome::AlreadyIntegrated)) <==> (
            op_id < old(self).ops().len() && old(self).heads().len() == 1 && is_ancestor(
                old(self).ops(),
                op_id as int,
                old(self).heads()[0] as int,
            )),
            r == Ok::<IntegrateOutcome, OpLogError>(IntegrateOutcome::AlreadyIntegrated) ==> *final(
            self) == *old(self),
            (r == Ok::<IntegrateOutcome, OpLogError>(IntegrateOutcome::FastForwarded)) <==> (op_id
                < old(self).ops().len() && !is_covered(old(self).ops(), old(self).heads(), op_id)
                && integrate_parents(old(self).ops(), old(self).heads(), op_id) == seq![op_id]),
            r == Ok::<IntegrateOutcome, OpLogError>(IntegrateOutcome::FastForwarded) ==> {
                &&& final(self).ops() == old(self).ops()
                &&& final(self).views() == old(self).views()
                &&& final(self).heads().to_set() == set![op_id]
            },
            r matches Ok(IntegrateOutcome::Merged { op_id: c }) ==> {
                &&& c < final(self).ops().len()
                &&& final(self).ops() == ops_after_put(old(self).ops(), final(self).ops()[c as int])
                &&& final(self).ops()[c as int].parents == integrate_parents(
                    old(self).ops(),
                    old(self).heads(),
                    op_id,
                )
                &&& merges(
                    view_of(final(self).ops(), final(self).views(), c),
                    views_of(
                        old(self).ops(),
                        old(self).views(),
                        integrate_parents(old(self).ops(), old(self).heads(), op_id),
                    ),
                )
                &&& final(self).ops()[c as int].description == metadata.description@
                &&& final(self).views() == views_after_put(
                    old(self).views(),
                    view_of(final(self).ops(), final(self).views(), c),
                )
                &&& final(self).ops()[c as int].author == metadata.author@
                &&& final(self).heads().to_set() == set![c]
            },
    {
        let n = self.store.num_operations();
        if op_id >= n {
            return Err(OpLogError::NotFound);
        }
        let ghost ops = self.ops();
        let heads = self.op_heads.current_heads();
        proof {
            self.lemma_wf();
        }
        let mut covered = false;
        let mut i: usize = 0;
        while i < heads.len()
            invariant
                i <= heads.len(),
                self.wf(),
                *self == *old(self),
                ops == self.ops(),
                heads@ == self.heads(),
                covered == exists|k: int|
                    0 <= k < i && is_ancestor(ops, op_id as int, #[trigger] heads@[k] as int),
            decreases heads.len() - i,
        {
            proof {
                self.lemma_wf();
            }
            if self.store.is_ancestor_of(op_id, heads[i]) {
                covered = true;
            }
            i += 1;
        }
        if covered {
            if heads.len() == 1 {
                return Ok(IntegrateOutcome::AlreadyIntegrated);
            }
            if !self.parents_resolve(&heads, resolvable) {
                return Err(OpLogError::MissingReferent);
            }
            let c = self.merge_operation(heads, metadata);
            return Ok(IntegrateOutcome::Merged { op_id: c });
        }
        let ghost pred = not_included_in(ops, op_id);
        let mut parents: Vec<u64> = Vec::new();
        let mut i: usize = 0;
        while i < heads.len()
            invariant
                i <= heads.len(),
                self.wf(),
                *self == *old(self),
                ops == self.ops(),
                heads@ == self.heads(),
                op_id < ops.len(),
                pred == not_included_in(ops, op_id),
                parents@ == heads@.subrange(0, i as int).filter(pred),
                forall|k: int| 0 <= k < parents.len() ==> #[trigger] parents@[k] < ops.len(),
            decreases heads.len() - i,
        {
            proof {
                self.lemma_wf();
                reveal(Seq::filter);
                let s = heads@.subrange(0, i + 1);
                assert(s.drop_last() =~= heads@.subrange(0, i as int));
                assert(s.last() == heads@[i as int]);
            }
            if !self.store.is_ancestor_of(heads[i], op_id) {
                parents.push(heads[i]);
            }
            i += 1;
        }
        assert(heads@.subrange(0, heads.len() as int) =~= heads@);
        if parents.len() == 0 {
            assert(parents@.push(op_id) =~= seq![op_id]);
            match self.op_heads.update(&heads, op_id) {
                Ok(()) => {},
                Err(_) => {
                    return Ok(IntegrateOutcome::FastForwarded);
                },
            }
            proof {
                assert(self.heads().to_set() =~= set![op_id]);
                assert forall|k: int| 0 <= k < self.heads().len() implies #[trigger] self.heads()[k]
                    < self.ops().len() by {
                    assert(self.heads().to_set().contains(self.heads()[k]));
                }
            }
            return Ok(IntegrateOutcome::FastForwarded);
        }
        parents.push(op_id);
        proof {
            assert(parents@.len() >= 2);
            assert(parents@ != seq![op_id]);
        }
        if !self.parents_resolve(&parents, resolvable) {
            return Err(OpLogError::MissingReferent);
        }
        let c = self.merge_operation(parents, metadata);
        Ok(IntegrateOutcome::Merged { op_id: c })
    }

    /// Checks a workspace's recorded operation `checkout` against the loaded
    /// operation `loaded`. Fails with `OperationDivergence` where neither is an
    /// ancestor of the other, and with `NotFound` where either is not stored.
    pub fn check_checkout(&self, loaded: u64, checkout: u64) -> (r: Result<(), OpLogError>)
        requires
            self.wf(),
        ensures
            (loaded >= self.ops().len() || checkout >= self.ops().len()) ==> r == Err::<
                (),
                OpLogError,
            >(OpLogError::NotFound),
            (loaded < self.ops().len() && checkout < self.ops().len()) ==> (r is Ok <==> (
            is_ancestor(self.ops(), checkout as int, loaded as int) || is_ancestor(
                self.ops(),
                loaded as int,
                checkout as int,
            ))),
            (loaded < self.ops().len() && checkout < self.ops().len()) ==> (r is Err ==> r == Err::<
                (),
                OpLogError,
            >(OpLogError::OperationDivergence { loaded, checkout })),
    {
        let n = self.store.num_operations();
        if loaded >= n || checkout >= n {
            return Err(OpLogError::NotFound);
        }
        if self.store.is_ancestor_of(checkout, loaded) || self.store.is_ancestor_of(loaded, checkout) {
            Ok(())
        } else {
            Err(OpLogError::OperationDivergence { loaded, checkout })
        }
    }
}

/// A unit of mutation: a working view, changed in memory, and the heads it
/// was based on. Nothing is stored until `commit`.
pub struct Transaction {
    base_heads: Vec<u64>,
    view: RepoView,
}

impl Transaction {
    /// The heads the transaction is based on.
    pub closed spec fn base(&self) -> Seq<u64> {
        self.base_heads@
    }

    /// The content of the working view.
    pub closed spec fn working(&self) -> ViewModel {
        self.view@
    }

    /// The working view.
    pub fn view(&self) -> (r: &RepoView)
        ensures
            r@ == self.working(),
    {
        &self.view
    }

    /// Adds a target to a ref in the working view.
    pub fn add_ref(&mut self, name: String, target: u64)
        ensures
            final(self).base() == old(self).base(),
            final(self).working().heads == old(self).working().heads,
            final(self).working().positions == old(self).working().positions,
            is_union(final(self).working().refs, old(self).working().refs, seq![(name@, target)]),
    {
        self.view.add_ref(name, target);
    }

    /// Adds a commit to the visible heads of the working view.
    pub fn add_head_commit(&mut self, commit_id: u64)
        ensures
            final(self).base() == old(self).base(),
            final(self).working().refs == old(self).working().refs,
            final(self).working().positions == old(self).working().positions,
            is_union(final(self).working().heads, old(self).working().heads, seq![commit_id]),
    {
        self.view.add_head_commit(commit_id);
    }

    /// Records where a workspace's working copy is in the working view,
    /// replacing what was recorded for that workspace.
    pub fn set_workspace_position(&mut self, workspace: String, op_id: u64, commit_id: u64)
        ensures
            final(self).base() == old(self).base(),
            final(self).working().refs == old(self).working().refs,
            final(self).working().heads == old(self).working().heads,
            forall|x: (Seq<char>, u64, u64)|
                final(self).working().positions.contains(x) <==> (x == (workspace@, op_id, commit_id)
                    || (old(self).working().positions.contains(x) && x.0 != workspace@)),
    {
        self.view.set_workspace_position(workspace, op_id, commit_id);
    }

    /// The heads the transaction was based on.
    pub fn base_heads(&self) -> (r: Vec<u64>)
        ensures
            r@ == self.base(),
    {
        copy_ids(&self.base_heads)
    }

    /// Stores the working view and a new operation parented on the base
    /// heads, then makes it a head in place of those base heads that are
    /// still heads. Fails with `NotFound`, changing nothing, where a base
    /// head is not stored in `repo`.
    pub fn commit(self, repo: &mut Repo, metadata: OperationMetadata) -> (r: Result<u64, OpLogError>)
        requires
            old(repo).wf(),
        ensures
            final(repo).wf(),
            r is Ok <==> (self.base().len() >= 1 && forall|i: int|
                0 <= i < self.base().len() ==> #[trigger] self.base()[i] < old(repo).ops().len()),
            r is Err ==> r == Err::<u64, OpLogError>(OpLogError::NotFound),
            r is Err ==> *final(repo) == *old(repo),
            r matches Ok(id) ==> {
                &&& id < final(repo).ops().len()
                &&& final(repo).views() == views_after_put(old(repo).views(), self.working())
                &&& final(repo).ops() == ops_after_put(old(repo).ops(), final(repo).ops()[id as int])
                &&& final(repo).ops()[id as int].parents == self.base()
                &&& view_of(final(repo).ops(), final(repo).views(), id) == self.working()
                &&& final(repo).ops()[id as int].description == metadata.description@
                &&& final(repo).ops()[id as int].author == metadata.author@
                &&& final(repo).ops()[id as int].start_time == metadata.start_time
                &&& final(repo).ops()[id as int].end_time == metadata.end_time
                &&& final(repo).heads().to_set() == heads_after_commit(
                    old(repo).heads().to_set(),
                    self.base().to_set(),
                    id,
                )
            },
    {
        let n = repo.store.num_operations();
        if self.base_heads.len() == 0 {
            return Err(OpLogError::NotFound);
        }
        let mut i: usize = 0;
        while i < self.base_heads.len()
            invariant
                i <= self.base_heads.len(),
                n == old(repo).ops().len(),
                *repo == *old(repo),
                repo.wf(),
                forall|k: int| 0 <= k < i ==> #[trigger] self.base_heads@[k] < n,
            decreases self.base_heads.len() - i,
        {
            if self.base_heads[i] >= n {
                return Err(OpLogError::NotFound);
            }
            i += 1;
        }
        let ghost old_repo = *repo;
        let remove = repo.op_heads.retain_heads(&self.base_heads);
        let view_id = repo.store.put_view(self.view);
        let op = Operation { view_id, parent_ids: self.base_heads, metadata };
        let id = match repo.store.put_operation(op) {
            Ok(id) => id,
            Err(_) => {
                return Err(OpLogError::NotFound);
            },
        };
        match repo.op_heads.update(&remove, id) {
            Ok(()) => {},
            Err(_) => {
                return Err(OpLogError::Retry);
            },
        }
        proof {
            let base = self.base_heads@;
            assert(repo.heads().to_set() =~= heads_after_commit(
                old_repo.heads().to_set(),
                base.to_set(),
                id,
            ));
            assert forall|k: int| 0 <= k < repo.heads().len() implies #[trigger] repo.heads()[k]
                < repo.ops().len() by {
                let h = repo.heads()[k];
                assert(repo.heads().to_set().contains(h));
                if h != id {
                    assert(old_repo.heads().to_set().contains(h));
                    let j = choose|j: int| 0 <= j < old_repo.heads().len() && old_repo.heads()[j] == h;
                    assert(old_repo.heads()[j] < old_repo.ops().len());
                }
            }
        }
        Ok(id)
    }
}

} // verus!
