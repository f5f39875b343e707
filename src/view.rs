use vstd::prelude::*;

use crate::error::OpLogError;

verus! {

/// A named ref and one commit it points at. A ref with several targets
/// (a conflicted ref) appears once per target.
pub struct RefTarget {
    pub name: String,
    pub target: u64,
}

impl View for RefTarget {
    type V = (Seq<char>, u64);

    open spec fn view(&self) -> (Seq<char>, u64) {
        (self.name@, self.target)
    }
}

/// The operation and commit that a workspace's working copy is at.
pub struct WorkspacePosition {
    pub workspace: String,
    pub op_id: u64,
    pub commit_id: u64,
}

impl View for WorkspacePosition {
    type V = (Seq<char>, u64, u64);

    open spec fn view(&self) -> (Seq<char>, u64, u64) {
        (self.workspace@, self.op_id, self.commit_id)
    }
}

/// The content of a snapshot of repository state.
pub struct ViewModel {
    pub refs: Seq<(Seq<char>, u64)>,
    pub heads: Seq<u64>,
    pub positions: Seq<(Seq<char>, u64, u64)>,
}

/// A snapshot of the repository-visible state: refs, visible head commits,
/// and the position of each workspace.
pub struct RepoView {
    pub refs: Vec<RefTarget>,
    pub head_commit_ids: Vec<u64>,
    pub workspace_positions: Vec<WorkspacePosition>,
}

/// The contents of a list of ref entries.
pub open spec fn ref_models(v: Seq<RefTarget>) -> Seq<(Seq<char>, u64)> {
    v.map_values(|r: RefTarget| r@)
}

/// The contents of a list of workspace positions.
pub open spec fn position_models(v: Seq<WorkspacePosition>) -> Seq<(Seq<char>, u64, u64)> {
    v.map_values(|w: WorkspacePosition| w@)
}

impl View for RepoView {
    type V = ViewModel;

    open spec fn view(&self) -> ViewModel {
        ViewModel {
            refs: ref_models(self.refs@),
            heads: self.head_commit_ids@,
            positions: position_models(self.workspace_positions@),
        }
    }
}

/// Every entry of `r` is in `a` or in `b`, and every entry of either is in `r`.
pub open spec fn is_union<T>(r: Seq<T>, a: Seq<T>, b: Seq<T>) -> bool {
    forall|x: T| r.contains(x) <==> (a.contains(x) || b.contains(x))
}

/// The structural merge of two views: each component is the union of both.
pub open spec fn is_merge(r: ViewModel, a: ViewModel, b: ViewModel) -> bool {
    &&& is_union(r.refs, a.refs, b.refs)
    &&& is_union(r.heads, a.heads, b.heads)
    &&& is_union(r.positions, a.positions, b.positions)
}

impl RefTarget {
    /// A copy with the same content.
    pub fn copied(&self) -> (r: RefTarget)
        ensures
            r@ == self@,
    {
        RefTarget { name: self.name.clone(), target: self.target }
    }

    /// Whether two entries have the same name and target.
    pub fn same_as(&self, o: &RefTarget) -> (r: bool)
        ensures
            r == (self@ == o@),
    {
        self.target == o.target && self.name == o.name
    }
}

impl WorkspacePosition {
    /// A copy with the same content.
    pub fn copied(&self) -> (r: WorkspacePosition)
        ensures
            r@ == self@,
    {
        WorkspacePosition {
            workspace: self.workspace.clone(),
            op_id: self.op_id,
            commit_id: self.commit_id,
        }
    }

    /// Whether two entries have the same workspace, operation and commit.
    pub fn same_as(&self, o: &WorkspacePosition) -> (r: bool)
        ensures
            r == (self@ == o@),
    {
        self.op_id == o.op_id && self.commit_id == o.commit_id && self.workspace == o.workspace
    }
}

/// Membership in a sequence after a push.
pub proof fn lemma_push_contains<T>(s: Seq<T>, e: T, x: T)
    ensures
        s.push(e).contains(x) <==> (s.contains(x) || x == e),
{
    if s.push(e).contains(x) {
        let k = choose|k: int| 0 <= k < s.len() + 1 && s.push(e)[k] == x;
        if k < s.len() {
            assert(s[k] == x);
        }
    }
    if s.contains(x) {
        let k = choose|k: int| 0 <= k < s.len() && s[k] == x;
        assert(s.push(e)[k] == x);
    }
    if x == e {
        assert(s.push(e)[s.len() as int] == x);
    }
}

fn contains_ref(v: &Vec<RefTarget>, x: &RefTarget) -> (r: bool)
    ensures
        r == ref_models(v@).contains(x@),
{
    let mut i: usize = 0;
    while i < v.len()
        invariant
            i <= v.len(),
            forall|k: int| 0 <= k < i ==> v@[k]@ != x@,
        decreases v.len() - i,
    {
        if v[i].same_as(x) {
            assert(ref_models(v@)[i as int] == x@);
            return true;
        }
        i += 1;
    }
    false
}

fn contains_position(v: &Vec<WorkspacePosition>, x: &WorkspacePosition) -> (r: bool)
    ensures
        r == position_models(v@).contains(x@),
{
    let mut i: usize = 0;
    while i < v.len()
        invariant
            i <= v.len(),
            forall|k: int| 0 <= k < i ==> v@[k]@ != x@,
        decreases v.len() - i,
    {
        if v[i].same_as(x) {
            assert(position_models(v@)[i as int] == x@);
            return true;
        }
        i += 1;
    }
    false
}

/// Whether `x` is among `v`.
pub fn contains_id(v: &Vec<u64>, x: u64) -> (r: bool)
    ensures
        r == v@.contains(x),
{
    let mut i: usize = 0;
    while i < v.len()
        invariant
            i <= v.len(),
            forall|k: int| 0 <= k < i ==> v@[k] != x,
        decreases v.len() - i,
    {
        if v[i] == x {
            return true;
        }
        i += 1;
    }
    false
}

fn union_refs(a: &Vec<RefTarget>, b: &Vec<RefTarget>) -> (r: Vec<RefTarget>)
    ensures
        is_union(ref_models(r@), ref_models(a@), ref_models(b@)),
{
    let mut r: Vec<RefTarget> = Vec::new();
    let mut i: usize = 0;
    while i < a.len()
        invariant
            i <= a.len(),
            r.len() == i,
            forall|k: int| 0 <= k < i ==> r@[k]@ == a@[k]@,
        decreases a.len() - i,
    {
        r.push(a[i].copied());
        i += 1;
    }
    assert(ref_models(r@) =~= ref_models(a@));
    let mut j: usize = 0;
    while j < b.len()
        invariant
            j <= b.len(),
            forall|x: (Seq<char>, u64)|
                ref_models(r@).contains(x) <==> (ref_models(a@).contains(x) || ref_models(
                    b@.subrange(0, j as int),
                ).contains(x)),
        decreases b.len() - j,
    {
        let present = contains_ref(&r, &b[j]);
        let ghost before = ref_models(r@);
        if !present {
            r.push(b[j].copied());
            assert(ref_models(r@) =~= before.push(b@[j as int]@));
        }
        assert(ref_models(b@.subrange(0, j + 1)) =~= ref_models(b@.subrange(0, j as int)).push(
            b@[j as int]@,
        ));
        assert forall|x: (Seq<char>, u64)|
            ref_models(r@).contains(x) <==> (ref_models(a@).contains(x) || ref_models(
                b@.subrange(0, j + 1),
            ).contains(x)) by {
            lemma_push_contains(ref_models(b@.subrange(0, j as int)), b@[j as int]@, x);
            lemma_push_contains(before, b@[j as int]@, x);
        }
        j += 1;
    }
    assert(b@.subrange(0, b.len() as int) =~= b@);
    r
}

fn union_positions(a: &Vec<WorkspacePosition>, b: &Vec<WorkspacePosition>) -> (r: Vec<WorkspacePosition>)
    ensures
        is_union(position_models(r@), position_models(a@), position_models(b@)),
{
    let mut r: Vec<WorkspacePosition> = Vec::new();
    let mut i: usize = 0;
    while i < a.len()
        invariant
            i <= a.len(),
            r.len() == i,
            forall|k: int| 0 <= k < i ==> r@[k]@ == a@[k]@,
        decreases a.len() - i,
    {
        r.push(a[i].copied());
        i += 1;
    }
    assert(position_models(r@) =~= position_models(a@));
    let mut j: usize = 0;
    while j < b.len()
        invariant
            j <= b.len(),
            forall|x: (Seq<char>, u64, u64)|
                position_models(r@).contains(x) <==> (position_models(a@).contains(x) || position_models(
                    b@.subrange(0, j as int),
                ).contains(x)),
        decreases b.len() - j,
    {
        let present = contains_position(&r, &b[j]);
        let ghost before = position_models(r@);
        if !present {
            r.push(b[j].copied());
            assert(position_models(r@) =~= before.push(b@[j as int]@));
        }
        assert(position_models(b@.subrange(0, j + 1)) =~= position_models(b@.subrange(0, j as int)).push(
            b@[j as int]@,
        ));
        assert forall|x: (Seq<char>, u64, u64)|
            position_models(r@).contains(x) <==> (position_models(a@).contains(x) || position_models(
                b@.subrange(0, j + 1),
            ).contains(x)) by {
            lemma_push_contains(position_models(b@.subrange(0, j as int)), b@[j as int]@, x);
            lemma_push_contains(before, b@[j as int]@, x);
        }
        j += 1;
    }
    assert(b@.subrange(0, b.len() as int) =~= b@);
    r
}

fn union_ids(a: &Vec<u64>, b: &Vec<u64>) -> (r: Vec<u64>)
    ensures
        is_union(r@, a@, b@),
{
    let mut r: Vec<u64> = Vec::new();
    let mut i: usize = 0;
    while i < a.len()
        invariant
            i <= a.len(),
            r.len() == i,
            forall|k: int| 0 <= k < i ==> r@[k] == a@[k],
        decreases a.len() - i,
    {
        r.push(a[i]);
        i += 1;
    }
    assert(r@ =~= a@);
    let mut j: usize = 0;
    while j < b.len()
        invariant
            j <= b.len(),
            forall|x: u64|
                r@.contains(x) <==> (a@.contains(x) || b@.subrange(0, j as int).contains(x)),
        decreases b.len() - j,
    {
        let present = contains_id(&r, b[j]);
        let ghost before = r@;
        if !present {
            r.push(b[j]);
            assert(r@ =~= before.push(b@[j as int]));
        }
        assert(b@.subrange(0, j + 1) =~= b@.subrange(0, j as int).push(b@[j as int]));
        assert forall|x: u64|
            r@.contains(x) <==> (a@.contains(x) || b@.subrange(0, j + 1).contains(x)) by {
            lemma_push_contains(b@.subrange(0, j as int), b@[j as int], x);
            lemma_push_contains(before, b@[j as int], x);
        }
        j += 1;
    }
    assert(b@.subrange(0, b.len() as int) =~= b@);
    r
}

/// Merges two views component by component; no entry of either is dropped.
pub fn merge_views(a: &RepoView, b: &RepoView) -> (r: RepoView)
    ensures
        is_merge(r@, a@, b@),
{
    RepoView {
        refs: union_refs(&a.refs, &b.refs),
        head_commit_ids: union_ids(&a.head_commit_ids, &b.head_commit_ids),
        workspace_positions: union_positions(&a.workspace_positions, &b.workspace_positions),
    }
}

fn same_refs(a: &Vec<RefTarget>, b: &Vec<RefTarget>) -> (r: bool)
    ensures
        r == (ref_models(a@) == ref_models(b@)),
{
    if a.len() != b.len() {
        assert(ref_models(a@).len() != ref_models(b@).len());
        return false;
    }
    let mut i: usize = 0;
    while i < a.len()
        invariant
            i <= a.len(),
            a.len() == b.len(),
            forall|k: int| 0 <= k < i ==> a@[k]@ == b@[k]@,
        decreases a.len() - i,
    {
        if !a[i].same_as(&b[i]) {
            assert(ref_models(a@)[i as int] != ref_models(b@)[i as int]);
            return false;
        }
        i += 1;
    }
    assert(ref_models(a@) =~= ref_models(b@));
    true
}

fn copy_refs(a: &Vec<RefTarget>) -> (r: Vec<RefTarget>)
    ensures
        ref_models(r@) == ref_models(a@),
{
    let mut r: Vec<RefTarget> = Vec::new();
    let mut i: usize = 0;
    while i < a.len()
        invariant
            i <= a.len(),
            r.len() == i,
            forall|k: int| 0 <= k < i ==> r@[k]@ == a@[k]@,
        decreases a.len() - i,
    {
        r.push(a[i].copied());
        i += 1;
    }
    assert(ref_models(r@) =~= ref_models(a@));
    r
}

fn same_positions(a: &Vec<WorkspacePosition>, b: &Vec<WorkspacePosition>) -> (r: bool)
    ensures
        r == (position_models(a@) == position_models(b@)),
{
    if a.len() != b.len() {
        assert(position_models(a@).len() != position_models(b@).len());
        return false;
    }
    let mut i: usize = 0;
    while i < a.len()
        invariant
            i <= a.len(),
            a.len() == b.len(),
            forall|k: int| 0 <= k < i ==> a@[k]@ == b@[k]@,
        decreases a.len() - i,
    {
        if !a[i].same_as(&b[i]) {
            assert(position_models(a@)[i as int] != position_models(b@)[i as int]);
            return false;
        }
        i += 1;
    }
    assert(position_models(a@) =~= position_models(b@));
    true
}

fn copy_positions(a: &Vec<WorkspacePosition>) -> (r: Vec<WorkspacePosition>)
    ensures
        position_models(r@) == position_models(a@),
{
    let mut r: Vec<WorkspacePosition> = Vec::new();
    let mut i: usize = 0;
    while i < a.len()
        invariant
            i <= a.len(),
            r.len() == i,
            forall|k: int| 0 <= k < i ==> r@[k]@ == a@[k]@,
        decreases a.len() - i,
    {
        r.push(a[i].copied());
        i += 1;
    }
    assert(position_models(r@) =~= position_models(a@));
    r
}

fn same_ids(a: &Vec<u64>, b: &Vec<u64>) -> (r: bool)
    ensures
        r == (a@ == b@),
{
    if a.len() != b.len() {
        return false;
    }
    let mut i: usize = 0;
    while i < a.len()
        invariant
            i <= a.len(),
            a.len() == b.len(),
            forall|k: int| 0 <= k < i ==> a@[k] == b@[k],
        decreases a.len() - i,
    {
        if a[i] != b[i] {
            return false;
        }
        i += 1;
    }
    assert(a@ =~= b@);
    true
}

/// A copy of a list of ids.
pub fn copy_ids(a: &Vec<u64>) -> (r: Vec<u64>)
    ensures
        r@ == a@,
{
    let mut r: Vec<u64> = Vec::new();
    let mut i: usize = 0;
    while i < a.len()
        invariant
            i <= a.len(),
            r.len() == i,
            forall|k: int| 0 <= k < i ==> r@[k] == a@[k],
        decreases a.len() - i,
    {
        r.push(a[i]);
        i += 1;
    }
    assert(r@ =~= a@);
    r
}

impl RepoView {
    /// The view of a repository with no refs, no visible commits and no workspaces.
    pub fn empty() -> (r: RepoView)
        ensures
            r@.refs.len() == 0,
            r@.heads.len() == 0,
            r@.positions.len() == 0,
    {
        let r = RepoView {
            refs: Vec::new(),
            head_commit_ids: Vec::new(),
            workspace_positions: Vec::new(),
        };
        assert(r@.refs =~= Seq::<(Seq<char>, u64)>::empty());
        assert(r@.positions =~= Seq::<(Seq<char>, u64, u64)>::empty());
        r
    }

    /// A copy with the same content.
    pub fn copied(&self) -> (r: RepoView)
        ensures
            r@ == self@,
    {
        RepoView {
            refs: copy_refs(&self.refs),
            head_commit_ids: copy_ids(&self.head_commit_ids),
            workspace_positions: copy_positions(&self.workspace_positions),
        }
    }

    /// Whether two views have identical content.
    pub fn same_as(&self, o: &RepoView) -> (r: bool)
        ensures
            r == (self@ == o@),
    {
        same_refs(&self.refs, &o.refs) && same_ids(&self.head_commit_ids, &o.head_commit_ids)
            && same_positions(&self.workspace_positions, &o.workspace_positions)
    }

    /// Adds a target to a ref; a target already there is not repeated.
    pub fn add_ref(&mut self, name: String, target: u64)
        ensures
            final(self)@.heads == old(self)@.heads,
            final(self)@.positions == old(self)@.positions,
            is_union(final(self)@.refs, old(self)@.refs, seq![(name@, target)]),
    {
        let entry = RefTarget { name, target };
        let ghost before = ref_models(self.refs@);
        if !contains_ref(&self.refs, &entry) {
            self.refs.push(entry);
            assert(ref_models(self.refs@) =~= before.push(entry@));
        }
        assert forall|x: (Seq<char>, u64)|
            ref_models(self.refs@).contains(x) <==> (before.contains(x) || seq![entry@].contains(x)) by {
            lemma_push_contains(before, entry@, x);
            assert(seq![entry@].contains(x) <==> x == entry@) by {
                if x == entry@ {
                    assert(seq![entry@][0] == x);
                }
            }
        }
    }

    /// Records where a workspace's working copy is, replacing what was
    /// recorded for that workspace.
    pub fn set_workspace_position(&mut self, workspace: String, op_id: u64, commit_id: u64)
        ensures
            final(self)@.refs == old(self)@.refs,
            final(self)@.heads == old(self)@.heads,
            forall|x: (Seq<char>, u64, u64)|
                final(self)@.positions.contains(x) <==> (x == (workspace@, op_id, commit_id) || (
                old(self)@.positions.contains(x) && x.0 != workspace@)),
    {
        let ghost old_positions = position_models(self.workspace_positions@);
        let mut kept: Vec<WorkspacePosition> = Vec::new();
        let mut i: usize = 0;
        while i < self.workspace_positions.len()
            invariant
                i <= self.workspace_positions.len(),
                *self == *old(self),
                position_models(self.workspace_positions@) == old_positions,
                forall|x: (Seq<char>, u64, u64)|
                    position_models(kept@).contains(x) <==> (old_positions.subrange(
                        0,
                        i as int,
                    ).contains(x) && x.0 != workspace@),
            decreases self.workspace_positions.len() - i,
        {
            let ghost before = position_models(kept@);
            let entry = &self.workspace_positions[i];
            assert(old_positions[i as int] == entry@);
            if entry.workspace != workspace {
                kept.push(entry.copied());
                assert(position_models(kept@) =~= before.push(entry@));
            } else {
                assert(position_models(kept@) =~= before);
            }
            assert(old_positions.subrange(0, i + 1) =~= old_positions.subrange(0, i as int).push(
                entry@,
            ));
            assert forall|x: (Seq<char>, u64, u64)|
                position_models(kept@).contains(x) <==> (old_positions.subrange(0, i + 1).contains(
                    x,
                ) && x.0 != workspace@) by {
                lemma_push_contains(old_positions.subrange(0, i as int), entry@, x);
                lemma_push_contains(before, entry@, x);
            }
            i += 1;
        }
        assert(old_positions.subrange(0, old_positions.len() as int) =~= old_positions);
        let entry = WorkspacePosition { workspace, op_id, commit_id };
        let ghost before = position_models(kept@);
        kept.push(entry);
        assert(position_models(kept@) =~= before.push(entry@));
        assert forall|x: (Seq<char>, u64, u64)|
            position_models(kept@).contains(x) <==> (x == entry@ || (old_positions.contains(x)
                && x.0 != entry.workspace@)) by {
            lemma_push_contains(before, entry@, x);
        }
        assert(entry@ == (workspace@, op_id, commit_id));
        assert(old(self)@.positions == old_positions);
        self.workspace_positions = kept;
        assert forall|x: (Seq<char>, u64, u64)|
            self@.positions.contains(x) <==> (x == (workspace@, op_id, commit_id) || (
            old(self)@.positions.contains(x) && x.0 != workspace@)) by {
            lemma_push_contains(before, entry@, x);
        }
    }

    /// Adds a commit to the visible heads; one already there is not repeated.
    pub fn add_head_commit(&mut self, commit_id: u64)
        ensures
            final(self)@.refs == old(self)@.refs,
            final(self)@.positions == old(self)@.positions,
            is_union(final(self)@.heads, old(self)@.heads, seq![commit_id]),
    {
        let ghost before = self.head_commit_ids@;
        if !contains_id(&self.head_commit_ids, commit_id) {
            self.head_commit_ids.push(commit_id);
        }
        assert forall|x: u64|
            self.head_commit_ids@.contains(x) <==> (before.contains(x) || seq![commit_id].contains(x)) by {
            lemma_push_contains(before, commit_id, x);
            assert(seq![commit_id].contains(x) <==> x == commit_id) by {
                if x == commit_id {
                    assert(seq![commit_id][0] == x);
                }
            }
        }
    }
}

/// Every commit id that the view refers to is among `resolvable`.
pub open spec fn referents_resolve(v: ViewModel, resolvable: Seq<u64>) -> bool {
    &&& forall|i: int| 0 <= i < v.refs.len() ==> resolvable.contains(#[trigger] v.refs[i].1)
    &&& forall|i: int| 0 <= i < v.heads.len() ==> resolvable.contains(#[trigger] v.heads[i])
    &&& forall|i: int| 0 <= i < v.positions.len() ==> resolvable.contains(#[trigger] v.positions[i].2)
}

/// Checks the commit ids of a view (ref targets, visible heads, checked-out
/// commits) against the ids that commit storage resolves. Fails with
/// `MissingReferent` where one of them is not resolvable.
pub fn check_referents(v: &RepoView, resolvable: &Vec<u64>) -> (r: Result<(), OpLogError>)
    ensures
        r is Ok <==> referents_resolve(v@, resolvable@),
        r is Err ==> r == Err::<(), OpLogError>(OpLogError::MissingReferent),
{
    let mut i: usize = 0;
    while i < v.refs.len()
        invariant
            i <= v.refs.len(),
            forall|k: int| 0 <= k < i ==> resolvable@.contains(#[trigger] v@.refs[k].1),
        decreases v.refs.len() - i,
    {
        if !contains_id(resolvable, v.refs[i].target) {
            assert(v@.refs[i as int].1 == v.refs@[i as int].target);
            return Err(OpLogError::MissingReferent);
        }
        i += 1;
    }
    let mut i: usize = 0;
    while i < v.head_commit_ids.len()
        invariant
            i <= v.head_commit_ids.len(),
            forall|k: int| 0 <= k < v.refs.len() ==> resolvable@.contains(#[trigger] v@.refs[k].1),
            forall|k: int| 0 <= k < i ==> resolvable@.contains(#[trigger] v@.heads[k]),
        decreases v.head_commit_ids.len() - i,
    {
        if !contains_id(resolvable, v.head_commit_ids[i]) {
            assert(v@.heads[i as int] == v.head_commit_ids@[i as int]);
            return Err(OpLogError::MissingReferent);
        }
        i += 1;
    }
    let mut i: usize = 0;
    while i < v.workspace_positions.len()
        invariant
            i <= v.workspace_positions.len(),
            forall|k: int| 0 <= k < v.refs.len() ==> resolvable@.contains(#[trigger] v@.refs[k].1),
            forall|k: int| 0 <= k < v.head_commit_ids.len() ==> resolvable@.contains(#[trigger] v@.heads[k]),
            forall|k: int| 0 <= k < i ==> resolvable@.contains(#[trigger] v@.positions[k].2),
        decreases v.workspace_positions.len() - i,
    {
        if !contains_id(resolvable, v.workspace_positions[i].commit_id) {
            assert(v@.positions[i as int].2 == v.workspace_positions@[i as int].commit_id);
            return Err(OpLogError::MissingReferent);
        }
        i += 1;
    }
    Ok(())
}

/// `r` holds exactly the entries found in some view of `vs`, component by component.
pub open spec fn merges(r: ViewModel, vs: Seq<ViewModel>) -> bool {
    &&& forall|x: (Seq<char>, u64)|
        r.refs.contains(x) <==> exists|i: int| 0 <= i < vs.len() && #[trigger] vs[i].refs.contains(x)
    &&& forall|x: u64|
        r.heads.contains(x) <==> exists|i: int| 0 <= i < vs.len() && #[trigger] vs[i].heads.contains(x)
    &&& forall|x: (Seq<char>, u64, u64)|
        r.positions.contains(x) <==> exists|i: int|
            0 <= i < vs.len() && #[trigger] vs[i].positions.contains(x)
}

/// Merging one more view into a merge of `vs` gives a merge of `vs` and it.
pub proof fn lemma_merges_push(n: ViewModel, acc: ViewModel, vs: Seq<ViewModel>, v: ViewModel)
    requires
        merges(acc, vs),
        is_merge(n, acc, v),
    ensures
        merges(n, vs.push(v)),
{
    let ws = vs.push(v);
    assert forall|x: (Seq<char>, u64)|
        n.refs.contains(x) implies exists|i: int| 0 <= i < ws.len() && #[trigger] ws[i].refs.contains(x) by {
        if acc.refs.contains(x) {
            let i = choose|i: int| 0 <= i < vs.len() && #[trigger] vs[i].refs.contains(x);
            assert(ws[i] == vs[i]);
        } else {
            assert(ws[vs.len() as int] == v);
        }
    }
    assert forall|x: (Seq<char>, u64)|
        (exists|i: int| 0 <= i < ws.len() && #[trigger] ws[i].refs.contains(x)) implies n.refs.contains(x) by {
        let i = choose|i: int| 0 <= i < ws.len() && #[trigger] ws[i].refs.contains(x);
        if i < vs.len() {
            assert(ws[i] == vs[i]);
        }
    }
    assert forall|x: u64|
        n.heads.contains(x) implies exists|i: int| 0 <= i < ws.len() && #[trigger] ws[i].heads.contains(x) by {
        if acc.heads.contains(x) {
            let i = choose|i: int| 0 <= i < vs.len() && #[trigger] vs[i].heads.contains(x);
            assert(ws[i] == vs[i]);
        } else {
            assert(ws[vs.len() as int] == v);
        }
    }
    assert forall|x: u64|
        (exists|i: int| 0 <= i < ws.len() && #[trigger] ws[i].heads.contains(x)) implies n.heads.contains(x) by {
        let i = choose|i: int| 0 <= i < ws.len() && #[trigger] ws[i].heads.contains(x);
        if i < vs.len() {
            assert(ws[i] == vs[i]);
        }
    }
    assert forall|x: (Seq<char>, u64, u64)|
        n.positions.contains(x) implies exists|i: int| 0 <= i < ws.len() && #[trigger] ws[i].positions.contains(x) by {
        if acc.positions.contains(x) {
            let i = choose|i: int| 0 <= i < vs.len() && #[trigger] vs[i].positions.contains(x);
            assert(ws[i] == vs[i]);
        } else {
            assert(ws[vs.len() as int] == v);
        }
    }
    assert forall|x: (Seq<char>, u64, u64)|
        (exists|i: int| 0 <= i < ws.len() && #[trigger] ws[i].positions.contains(x)) implies n.positions.contains(x) by {
        let i = choose|i: int| 0 <= i < ws.len() && #[trigger] ws[i].positions.contains(x);
        if i < vs.len() {
            assert(ws[i] == vs[i]);
        }
    }
}

} // verus!
