use vstd::prelude::*;

use crate::error::OpLogError;
use crate::view::{copy_ids, RepoView, ViewModel};

verus! {

/// The id of the root operation, present in every store.
pub const ROOT_OPERATION_ID: u64 = 0;

/// Who ran the command, when, and what it was.
pub struct OperationMetadata {
    pub description: String,
    pub author: String,
    pub start_time: i64,
    pub end_time: i64,
}

/// A node of the operation log: one view and the operations it follows.
pub struct Operation {
    pub view_id: u64,
    pub parent_ids: Vec<u64>,
    pub metadata: OperationMetadata,
}

/// The content of an operation.
pub struct OperationModel {
    pub view_id: u64,
    pub parents: Seq<u64>,
    pub description: Seq<char>,
    pub author: Seq<char>,
    pub start_time: i64,
    pub end_time: i64,
}

impl View for Operation {
    type V = OperationModel;

    open spec fn view(&self) -> OperationModel {
        OperationModel {
            view_id: self.view_id,
            parents: self.parent_ids@,
            description: self.metadata.description@,
            author: self.metadata.author@,
            start_time: self.metadata.start_time,
            end_time: self.metadata.end_time,
        }
    }
}

impl OperationMetadata {
    /// A copy with the same content.
    pub fn copied(&self) -> (r: OperationMetadata)
        ensures
            r.description@ == self.description@,
            r.author@ == self.author@,
            r.start_time == self.start_time,
            r.end_time == self.end_time,
    {
        OperationMetadata {
            description: self.description.clone(),
            author: self.author.clone(),
            start_time: self.start_time,
            end_time: self.end_time,
        }
    }
}

impl Operation {
    /// Whether two operations have identical content.
    pub fn same_as(&self, o: &Operation) -> (r: bool)
        ensures
            r == (self@ == o@),
    {
        if self.view_id != o.view_id || self.metadata.start_time != o.metadata.start_time
            || self.metadata.end_time != o.metadata.end_time {
            return false;
        }
        if self.parent_ids.len() != o.parent_ids.len() {
            return false;
        }
        let mut i: usize = 0;
        while i < self.parent_ids.len()
            invariant
                i <= self.parent_ids.len(),
                self.parent_ids.len() == o.parent_ids.len(),
                forall|k: int| 0 <= k < i ==> self.parent_ids@[k] == o.parent_ids@[k],
            decreases self.parent_ids.len() - i,
        {
            if self.parent_ids[i] != o.parent_ids[i] {
                return false;
            }
            i += 1;
        }
        assert(self.parent_ids@ =~= o.parent_ids@);
        self.metadata.description == o.metadata.description && self.metadata.author
            == o.metadata.author
    }

    /// A copy with the same content.
    pub fn copied(&self) -> (r: Operation)
        ensures
            r@ == self@,
    {
        Operation {
            view_id: self.view_id,
            parent_ids: copy_ids(&self.parent_ids),
            metadata: self.metadata.copied(),
        }
    }
}

/// Whether operation `a` is `b` or reachable from `b` over parent links.
pub open spec fn is_ancestor(ops: Seq<OperationModel>, a: int, b: int) -> bool
    decreases b,
{
    a == b || (0 <= b < ops.len() && exists|m: int|
        #![trigger ops[b].parents[m]]
        0 <= m < ops[b].parents.len() && 0 <= ops[b].parents[m] < b && is_ancestor(
            ops,
            a,
            ops[b].parents[m] as int,
        ))
}

/// Operation `a` is listed among the parents of operation `k`.
pub open spec fn is_parent(ops: Seq<OperationModel>, a: int, k: int) -> bool {
    0 <= k < ops.len() && exists|q: int|
        0 <= q < ops[k].parents.len() && #[trigger] ops[k].parents[q] as int == a
}

/// The operation log is a DAG rooted at the root operation: the root has no
/// parents, every other operation has at least one, and each parent was stored
/// before its child (so ids order the graph and no cycle can form). Every
/// operation refers to a stored view, and no content is stored twice.
pub open spec fn ops_well_formed(ops: Seq<OperationModel>, n_views: int) -> bool {
    &&& ops.len() >= 1
    &&& ops[0].parents.len() == 0
    &&& forall|i: int| 0 < i < ops.len() ==> #[trigger] ops[i].parents.len() >= 1
    &&& forall|i: int, m: int|
        0 <= i < ops.len() && 0 <= m < ops[i].parents.len() ==> #[trigger] ops[i].parents[m] < i
    &&& forall|i: int| 0 <= i < ops.len() ==> #[trigger] ops[i].view_id < n_views
    &&& forall|i: int, j: int| 0 <= i < j < ops.len() ==> ops[i] != ops[j]
}

/// What an operation store holds after `o` is stored.
pub open spec fn ops_after_put(ops: Seq<OperationModel>, o: OperationModel) -> Seq<
    OperationModel,
> {
    if ops.contains(o) {
        ops
    } else {
        ops.push(o)
    }
}

/// What a view store holds after `v` is stored.
pub open spec fn views_after_put(views: Seq<ViewModel>, v: ViewModel) -> Seq<ViewModel> {
    if views.contains(v) {
        views
    } else {
        views.push(v)
    }
}

/// Whether `o` may be stored: it is the root's content, or it names a stored
/// view and at least one parent, each of them stored.
pub open spec fn op_storable(ops: Seq<OperationModel>, n_views: int, o: OperationModel) -> bool {
    ops.contains(o) || (o.view_id < n_views && o.parents.len() >= 1 && forall|m: int|
        0 <= m < o.parents.len() ==> #[trigger] o.parents[m] < ops.len())
}

/// Content-addressed storage of operations and views. An id is the position
/// of the content in the store; storing identical content again gives back
/// the id it already has.
pub struct OpStore {
    views: Vec<RepoView>,
    operations: Vec<Operation>,
}

impl OpStore {
    /// The stored operations, by id.
    pub closed spec fn ops(&self) -> Seq<OperationModel> {
        self.operations@.map_values(|o: Operation| o@)
    }

    /// The stored views, by id.
    pub closed spec fn views(&self) -> Seq<ViewModel> {
        self.views@.map_values(|v: RepoView| v@)
    }

    /// The operations form a rooted DAG over stored views, and no content is
    /// stored twice.
    pub open spec fn wf(&self) -> bool {
        &&& ops_well_formed(self.ops(), self.views().len() as int)
        &&& forall|i: int, j: int|
            0 <= i < j < self.views().len() ==> self.views()[i] != self.views()[j]
    }

    /// A store that holds the root operation and its empty view.
    pub fn new(root_metadata: OperationMetadata) -> (r: OpStore)
        ensures
            r.wf(),
            r.ops().len() == 1,
            r.views().len() == 1,
            r.ops()[0].view_id == 0,
            r.ops()[0].parents.len() == 0,
            r.ops()[0].description == root_metadata.description@,
            r.ops()[0].author == root_metadata.author@,
            r.ops()[0].start_time == root_metadata.start_time,
            r.ops()[0].end_time == root_metadata.end_time,
            r.views()[0].refs.len() == 0,
            r.views()[0].heads.len() == 0,
            r.views()[0].positions.len() == 0,
    {
        let mut views: Vec<RepoView> = Vec::new();
        views.push(RepoView::empty());
        let mut operations: Vec<Operation> = Vec::new();
        operations.push(
            Operation { view_id: 0, parent_ids: Vec::new(), metadata: root_metadata },
        );
        OpStore { views, operations }
    }

    /// How many operations are stored.
    pub fn num_operations(&self) -> (r: u64)
        ensures
            r == self.ops().len(),
    {
        self.operations.len() as u64
    }

    /// How many views are stored.
    pub fn num_views(&self) -> (r: u64)
        ensures
            r == self.views().len(),
    {
        self.views.len() as u64
    }

    /// The stored operation with the given id.
    pub fn operation(&self, id: u64) -> (r: &Operation)
        requires
            id < self.ops().len(),
        ensures
            r@ == self.ops()[id as int],
    {
        let n = self.operations.len();
        assert(id < n);
        &self.operations[id as usize]
    }

    /// The stored view with the given id.
    pub fn view(&self, id: u64) -> (r: &RepoView)
        requires
            id < self.views().len(),
        ensures
            r@ == self.views()[id as int],
    {
        let n = self.views.len();
        assert(id < n);
        &self.views[id as usize]
    }

    /// The operation with the given id.
    pub fn get_operation(&self, id: u64) -> (r: Result<&Operation, OpLogError>)
        ensures
            id < self.ops().len() ==> (r matches Ok(o) && o@ == self.ops()[id as int]),
            id >= self.ops().len() ==> r == Err::<&Operation, OpLogError>(OpLogError::NotFound),
    {
        if id < self.operations.len() as u64 {
            Ok(&self.operations[id as usize])
        } else {
            Err(OpLogError::NotFound)
        }
    }

    /// The view with the given id.
    pub fn get_view(&self, id: u64) -> (r: Result<&RepoView, OpLogError>)
        ensures
            id < self.views().len() ==> (r matches Ok(v) && v@ == self.views()[id as int]),
            id >= self.views().len() ==> r == Err::<&RepoView, OpLogError>(OpLogError::NotFound),
    {
        if id < self.views.len() as u64 {
            Ok(&self.views[id as usize])
        } else {
            Err(OpLogError::NotFound)
        }
    }

    /// Stores a view and returns its id; a view with the same content keeps
    /// the id it has.
    pub fn put_view(&mut self, v: RepoView) -> (r: u64)
        requires
            old(self).wf(),
        ensures
            final(self).wf(),
            final(self).ops() == old(self).ops(),
            final(self).views() == views_after_put(old(self).views(), v@),
            r < final(self).views().len(),
            final(self).views()[r as int] == v@,
    {
        let ghost vs = self.views();
        let mut i: usize = 0;
        while i < self.views.len()
            invariant
                i <= self.views.len(),
                self.views() == vs,
                self.wf(),
                *self == *old(self),
                forall|k: int| 0 <= k < i ==> vs[k] != v@,
            decreases self.views.len() - i,
        {
            if self.views[i].same_as(&v) {
                assert(vs[i as int] == v@);
                return i as u64;
            }
            i += 1;
        }
        let ghost ops = self.ops();
        let r = self.views.len() as u64;
        self.views.push(v);
        assert(self.views() =~= vs.push(v@));
        assert(self.ops() =~= ops);
        r
    }

    /// Stores an operation and returns its id; an operation with the same
    /// content keeps the id it has. Fails with `NotFound` where the operation
    /// is new and names a view or parent that is not stored, or no parent.
    pub fn put_operation(&mut self, o: Operation) -> (r: Result<u64, OpLogError>)
        requires
            old(self).wf(),
        ensures
            final(self).wf(),
            final(self).views() == old(self).views(),
            r is Ok <==> op_storable(old(self).ops(), old(self).views().len() as int, o@),
            r is Ok ==> final(self).ops() == ops_after_put(old(self).ops(), o@),
            r matches Ok(id) ==> id < final(self).ops().len() && final(self).ops()[id as int]
                == o@,
            r is Err ==> r == Err::<u64, OpLogError>(OpLogError::NotFound) && final(self).ops()
                == old(self).ops(),
    {
        let ghost ops = self.ops();
        let mut i: usize = 0;
        while i < self.operations.len()
            invariant
                i <= self.operations.len(),
                self.ops() == ops,
                self.wf(),
                *self == *old(self),
                forall|k: int| 0 <= k < i ==> ops[k] != o@,
            decreases self.operations.len() - i,
        {
            if self.operations[i].same_as(&o) {
                assert(ops[i as int] == o@);
                return Ok(i as u64);
            }
            i += 1;
        }
        assert(!ops.contains(o@));
        if o.view_id >= self.views.len() as u64 || o.parent_ids.len() == 0 {
            return Err(OpLogError::NotFound);
        }
        let n = self.operations.len() as u64;
        let mut m: usize = 0;
        while m < o.parent_ids.len()
            invariant
                m <= o.parent_ids.len(),
                n == ops.len(),
                self.ops() == ops,
                self.wf(),
                *self == *old(self),
                !ops.contains(o@),
                forall|k: int| 0 <= k < m ==> o.parent_ids@[k] < n,
            decreases o.parent_ids.len() - m,
        {
            if o.parent_ids[m] >= n {
                return Err(OpLogError::NotFound);
            }
            m += 1;
        }
        let ghost vs = self.views();
        self.operations.push(o);
        assert(self.ops() =~= ops.push(o@));
        assert(self.views() =~= vs);
        Ok(n)
    }
}

/// Following one parent link from an ancestor of `b` reaches an ancestor of `b`.
pub proof fn lemma_parent_of_ancestor(ops: Seq<OperationModel>, n_views: int, a: int, k: int, b: int)
    requires
        ops_well_formed(ops, n_views),
        0 <= b < ops.len(),
        is_ancestor(ops, k, b),
        is_parent(ops, a, k),
    ensures
        is_ancestor(ops, a, b),
    decreases b,
{
    let m = choose|m: int| 0 <= m < ops[k].parents.len() && #[trigger] ops[k].parents[m] as int == a;
    assert(ops[k].parents[m] < k);
    if k == b {
        assert(is_ancestor(ops, a, ops[b].parents[m] as int));
    } else {
        let m2 = choose|m2: int|
            #![trigger ops[b].parents[m2]]
            0 <= m2 < ops[b].parents.len() && 0 <= ops[b].parents[m2] < b && is_ancestor(
                ops,
                k,
                ops[b].parents[m2] as int,
            );
        lemma_parent_of_ancestor(ops, n_views, a, k, ops[b].parents[m2] as int);
    }
}

/// A proper ancestor `a` of `b` is a parent of some ancestor of `b` above it.
pub proof fn lemma_ancestor_last_step(ops: Seq<OperationModel>, n_views: int, a: int, b: int)
    requires
        ops_well_formed(ops, n_views),
        0 <= b < ops.len(),
        is_ancestor(ops, a, b),
        a != b,
    ensures
        exists|k: int| a < k <= b && is_ancestor(ops, k, b) && #[trigger] is_parent(ops, a, k),
    decreases b,
{
    let m = choose|m: int|
        #![trigger ops[b].parents[m]]
        0 <= m < ops[b].parents.len() && 0 <= ops[b].parents[m] < b && is_ancestor(
            ops,
            a,
            ops[b].parents[m] as int,
        );
    let p = ops[b].parents[m] as int;
    if p == a {
        assert(is_parent(ops, a, b));
        assert(is_ancestor(ops, b, b));
    } else {
        lemma_ancestor_last_step(ops, n_views, a, p);
        let k = choose|k: int| a < k <= p && is_ancestor(ops, k, p) && #[trigger] is_parent(ops, a, k);
        assert(is_ancestor(ops, k, b));
    }
}

/// Every operation descends from the root operation.
pub proof fn lemma_root_is_ancestor(ops: Seq<OperationModel>, n_views: int, b: int)
    requires
        ops_well_formed(ops, n_views),
        0 <= b < ops.len(),
    ensures
        is_ancestor(ops, 0, b),
    decreases b,
{
    if b > 0 {
        assert(ops[b].parents.len() >= 1);
        let p = ops[b].parents[0] as int;
        assert(p < b);
        lemma_root_is_ancestor(ops, n_views, p);
    }
}

/// An ancestor never has a larger id than its descendant.
pub proof fn lemma_ancestor_not_after(ops: Seq<OperationModel>, n_views: int, a: int, b: int)
    requires
        ops_well_formed(ops, n_views),
        0 <= b < ops.len(),
        is_ancestor(ops, a, b),
    ensures
        a <= b,
    decreases b,
{
    if a != b {
        let m = choose|m: int|
            #![trigger ops[b].parents[m]]
            0 <= m < ops[b].parents.len() && 0 <= ops[b].parents[m] < b && is_ancestor(
                ops,
                a,
                ops[b].parents[m] as int,
            );
        lemma_ancestor_not_after(ops, n_views, a, ops[b].parents[m] as int);
    }
}

/// The operation log is a single-rooted DAG: the root has no parents, every
/// other operation has at least one, every parent was stored before its child,
/// no two distinct operations are each other's ancestors, and the root is an
/// ancestor of every operation.
pub proof fn lemma_log_is_rooted_dag(store: &OpStore)
    requires
        store.wf(),
    ensures
        store.ops()[0].parents.len() == 0,
        forall|i: int| 0 < i < store.ops().len() ==> #[trigger] store.ops()[i].parents.len() >= 1,
        forall|i: int, m: int|
            0 <= i < store.ops().len() && 0 <= m < store.ops()[i].parents.len()
                ==> #[trigger] store.ops()[i].parents[m] < i,
        forall|a: int, b: int|
            0 <= a < store.ops().len() && 0 <= b < store.ops().len() && #[trigger] is_ancestor(
                store.ops(),
                a,
                b,
            ) && #[trigger] is_ancestor(store.ops(), b, a) ==> a == b,
        forall|i: int| 0 <= i < store.ops().len() ==> #[trigger] is_ancestor(store.ops(), 0, i),
{
    let ops = store.ops();
    let nv = store.views().len() as int;
    assert forall|a: int, b: int|
        0 <= a < ops.len() && 0 <= b < ops.len() && #[trigger] is_ancestor(ops, a, b)
            && #[trigger] is_ancestor(ops, b, a) implies a == b by {
        lemma_ancestor_not_after(ops, nv, a, b);
        lemma_ancestor_not_after(ops, nv, b, a);
    }
    assert forall|i: int| 0 <= i < ops.len() implies #[trigger] is_ancestor(ops, 0, i) by {
        lemma_root_is_ancestor(ops, nv, i);
    }
}

/// Storing the same content twice stores it once: the second store leaves
/// the store as the first left it, and the content sits at one id only.
pub proof fn lemma_put_idempotent(
    ops: Seq<OperationModel>,
    views: Seq<ViewModel>,
    o: OperationModel,
    v: ViewModel,
)
    requires
        forall|i: int, j: int| 0 <= i < j < ops.len() ==> ops[i] != ops[j],
        forall|i: int, j: int| 0 <= i < j < views.len() ==> views[i] != views[j],
    ensures
        ops_after_put(ops_after_put(ops, o), o) == ops_after_put(ops, o),
        views_after_put(views_after_put(views, v), v) == views_after_put(views, v),
        forall|i: int, j: int|
            0 <= i < ops_after_put(ops, o).len() && 0 <= j < ops_after_put(ops, o).len()
                && ops_after_put(ops, o)[i] == o && ops_after_put(ops, o)[j] == o ==> i == j,
        forall|i: int, j: int|
            0 <= i < views_after_put(views, v).len() && 0 <= j < views_after_put(views, v).len()
                && views_after_put(views, v)[i] == v && views_after_put(views, v)[j] == v ==> i
                == j,
{
    let ops1 = ops_after_put(ops, o);
    if !ops.contains(o) {
        assert(ops1[ops.len() as int] == o);
    }
    let views1 = views_after_put(views, v);
    if !views.contains(v) {
        assert(views1[views.len() as int] == v);
    }
    assert forall|i: int, j: int|
        0 <= i < ops1.len() && 0 <= j < ops1.len() && ops1[i] == o && ops1[j] == o implies i
        == j by {
        if i != j && !ops.contains(o) {
            if i < ops.len() {
                assert(ops.contains(o));
            } else if j < ops.len() {
                assert(ops[j] == o);
            }
        }
    }
    assert forall|i: int, j: int|
        0 <= i < views1.len() && 0 <= j < views1.len() && views1[i] == v && views1[j] == v implies i
        == j by {
        if i != j && !views.contains(v) {
            if i < views.len() {
                assert(views.contains(v));
            } else if j < views.len() {
                assert(views[j] == v);
            }
        }
    }
}

/// The operations marked while sweeping down from `b` to `i`: `b` itself and
/// every parent of an ancestor of `b` above `i`.
pub open spec fn swept(ops: Seq<OperationModel>, b: int, i: int, j: int) -> bool {
    j == b || exists|k: int| i < k <= b && is_ancestor(ops, k, b) && #[trigger] is_parent(ops, j, k)
}

impl OpStore {
    /// Whether operation `a` is operation `b` or one of its ancestors.
    pub fn is_ancestor_of(&self, a: u64, b: u64) -> (r: bool)
        requires
            self.wf(),
            b < self.ops().len(),
        ensures
            r == is_ancestor(self.ops(), a as int, b as int),
    {
        let ghost ops = self.ops();
        let ghost nv = self.views().len() as int;
        if a > b {
            assert(!is_ancestor(ops, a as int, b as int)) by {
                if is_ancestor(ops, a as int, b as int) {
                    lemma_ancestor_last_step(ops, nv, a as int, b as int);
                }
            }
            return false;
        }
        let n = self.operations.len();
        assert(n == ops.len());
        let bu = b as usize;
        let mut mark: Vec<bool> = vec![false; bu + 1];
        mark.set(bu, true);
        let mut i: usize = bu;
        while i > a as usize
            invariant
                a <= i <= b,
                bu == b,
                b < ops.len(),
                mark.len() == b + 1,
                self.wf(),
                ops == self.ops(),
                self.operations@.len() == ops.len(),
                nv == self.views().len(),
                forall|j: int| 0 <= j <= b ==> #[trigger] mark@[j] == swept(ops, b as int, i as int, j),
            decreases i,
        {
            proof {
                if mark@[i as int] {
                    if i != b {
                        let k = choose|k: int| i < k <= b && is_ancestor(ops, k, b as int) && #[trigger] is_parent(ops, i as int, k);
                        lemma_parent_of_ancestor(ops, nv, i as int, k, b as int);
                    }
                } else {
                    if is_ancestor(ops, i as int, b as int) {
                        lemma_ancestor_last_step(ops, nv, i as int, b as int);
                    }
                }
            }
            let marked = mark[i];
            let ghost before = mark@;
            if marked {
                let parents = &self.operations[i].parent_ids;
                assert(parents@ == ops[i as int].parents);
                let mut m: usize = 0;
                while m < parents.len()
                    invariant
                        m <= parents.len(),
                        parents@ == ops[i as int].parents,
                        mark.len() == b + 1,
                        i <= b,
                        self.wf(),
                        ops == self.ops(),
                        forall|p: int| 0 <= p < parents.len() ==> #[trigger] parents@[p] < i,
                        forall|j: int| 0 <= j <= b ==> #[trigger] mark@[j] == (before[j] || exists|q: int| 0 <= q < m && parents@[q] == j),
                    decreases parents.len() - m,
                {
                    let p = parents[m];
                    mark.set(p as usize, true);
                    m += 1;
                }
            }
            assert forall|j: int| 0 <= j <= b implies #[trigger] mark@[j] == swept(ops, b as int, i - 1, j) by {
                if marked {
                    if swept(ops, b as int, i - 1, j) && !swept(ops, b as int, i as int, j) {
                        let k = choose|k: int| i - 1 < k <= b && is_ancestor(ops, k, b as int) && #[trigger] is_parent(ops, j, k);
                        assert(k == i);
                        let q = choose|q: int| 0 <= q < ops[k].parents.len() && #[trigger] ops[k].parents[q] as int == j;
                        assert(self.operations@[i as int].parent_ids@[q] == j);
                    }
                    if mark@[j] && !before[j] {
                        let q = choose|q: int| 0 <= q < ops[i as int].parents.len() && self.operations@[i as int].parent_ids@[q] == j;
                        assert(is_parent(ops, j, i as int));
                    }
                } else {
                    if swept(ops, b as int, i - 1, j) && !swept(ops, b as int, i as int, j) {
                        let k = choose|k: int| i - 1 < k <= b && is_ancestor(ops, k, b as int) && #[trigger] is_parent(ops, j, k);
                        assert(k == i);
                    }
                }
            }
            i -= 1;
        }
        proof {
            if mark@[a as int] {
                if a != b {
                    let k = choose|k: int| a < k <= b && is_ancestor(ops, k, b as int) && #[trigger] is_parent(ops, a as int, k);
                    lemma_parent_of_ancestor(ops, nv, a as int, k, b as int);
                }
            } else {
                if is_ancestor(ops, a as int, b as int) {
                    lemma_ancestor_last_step(ops, nv, a as int, b as int);
                }
            }
        }
        mark[a as usize]
    }
}

} // verus!
