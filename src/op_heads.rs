use vstd::prelude::*;

use crate::error::OpLogError;
use crate::view::{contains_id, copy_ids, lemma_push_contains};

verus! {

/// The head set after removing `remove` from `heads` and adding `add`.
pub open spec fn heads_after_update(heads: Seq<u64>, remove: Seq<u64>, add: u64) -> Set<u64> {
    heads.to_set().difference(remove.to_set()).insert(add)
}

/// The mutable set of operations that are current heads of the log.
pub struct OpHeadsStore {
    heads: Vec<u64>,
}

impl OpHeadsStore {
    /// The current heads, in the order they were added.
    pub closed spec fn heads(&self) -> Seq<u64> {
        self.heads@
    }

    /// No head is recorded twice and there is always at least one.
    pub open spec fn wf(&self) -> bool {
        &&& self.heads().len() >= 1
        &&& self.heads().no_duplicates()
    }

    /// A head set that holds one operation.
    pub fn new(head: u64) -> (r: OpHeadsStore)
        ensures
            r.wf(),
            r.heads() == seq![head],
    {
        let mut heads: Vec<u64> = Vec::new();
        heads.push(head);
        assert(heads@ =~= seq![head]);
        OpHeadsStore { heads }
    }

    /// The current heads.
    pub fn current_heads(&self) -> (r: Vec<u64>)
        ensures
            r@ == self.heads(),
    {
        copy_ids(&self.heads)
    }

    /// Whether `id` is a current head.
    pub fn is_head(&self, id: u64) -> (r: bool)
        ensures
            r == self.heads().contains(id),
    {
        let mut i: usize = 0;
        while i < self.heads.len()
            invariant
                i <= self.heads.len(),
                forall|k: int| 0 <= k < i ==> self.heads@[k] != id,
            decreases self.heads.len() - i,
        {
            if self.heads[i] == id {
                return true;
            }
            i += 1;
        }
        false
    }

    /// The ids of `ids` that are current heads, in their order.
    pub fn retain_heads(&self, ids: &Vec<u64>) -> (r: Vec<u64>)
        ensures
            forall|x: u64| r@.contains(x) <==> (ids@.contains(x) && self.heads().contains(x)),
    {
        let mut r: Vec<u64> = Vec::new();
        let mut i: usize = 0;
        while i < ids.len()
            invariant
                i <= ids.len(),
                forall|x: u64|
                    r@.contains(x) <==> (ids@.subrange(0, i as int).contains(x)
                        && self.heads().contains(x)),
            decreases ids.len() - i,
        {
            let ghost before = r@;
            if self.is_head(ids[i]) {
                r.push(ids[i]);
            }
            assert(ids@.subrange(0, i + 1) =~= ids@.subrange(0, i as int).push(ids@[i as int]));
            assert forall|x: u64|
                r@.contains(x) <==> (ids@.subrange(0, i + 1).contains(x)
                    && self.heads().contains(x)) by {
                lemma_push_contains(ids@.subrange(0, i as int), ids@[i as int], x);
                lemma_push_contains(before, ids@[i as int], x);
            }
            i += 1;
        }
        assert(ids@.subrange(0, ids.len() as int) =~= ids@);
        r
    }

    /// Replaces the heads in `remove` by `add`, provided every one of them is
    /// still a head; otherwise fails with `ConcurrentModification` and changes
    /// nothing.
    pub fn update(&mut self, remove: &Vec<u64>, add: u64) -> (r: Result<(), OpLogError>)
        requires
            old(self).wf(),
        ensures
            final(self).wf(),
            r is Ok <==> remove@.to_set().subset_of(old(self).heads().to_set()),
            r is Ok ==> final(self).heads().to_set() == heads_after_update(
                old(self).heads(),
                remove@,
                add,
            ),
            r is Err ==> r == Err::<(), OpLogError>(OpLogError::ConcurrentModification),
            r is Err ==> *final(self) == *old(self),
    {
        let mut m: usize = 0;
        while m < remove.len()
            invariant
                m <= remove.len(),
                self.wf(),
                *self == *old(self),
                forall|k: int| 0 <= k < m ==> self.heads@.contains(#[trigger] remove@[k]),
            decreases remove.len() - m,
        {
            if !self.is_head(remove[m]) {
                assert(remove@.to_set().contains(remove@[m as int]));
                return Err(OpLogError::ConcurrentModification);
            }
            m += 1;
        }
        assert(remove@.to_set().subset_of(self.heads@.to_set())) by {
            assert forall|x: u64| remove@.to_set().contains(x) implies self.heads@.to_set().contains(
                x,
            ) by {
                let k = choose|k: int| 0 <= k < remove.len() && remove@[k] == x;
            }
        }
        let ghost old_heads = self.heads@;
        let mut kept: Vec<u64> = Vec::new();
        let mut i: usize = 0;
        while i < self.heads.len()
            invariant
                i <= self.heads.len(),
                self.heads@ == old_heads,
                old_heads.no_duplicates(),
                kept@.no_duplicates(),
                !kept@.contains(add),
                forall|x: u64|
                    kept@.contains(x) <==> (old_heads.subrange(0, i as int).contains(x)
                        && !remove@.contains(x) && x != add),
            decreases self.heads.len() - i,
        {
            let h = self.heads[i];
            let ghost before = kept@;
            let dropped = h == add || contains_id(remove, h);
            if !dropped {
                proof {
                    assert(!before.contains(h)) by {
                        if before.contains(h) {
                            let k = choose|k: int| 0 <= k < i && old_heads[k] == h;
                            assert(old_heads[i as int] == h);
                        }
                    }
                }
                kept.push(h);
            }
            assert(old_heads.subrange(0, i + 1) =~= old_heads.subrange(0, i as int).push(h));
            assert forall|x: u64|
                kept@.contains(x) <==> (old_heads.subrange(0, i + 1).contains(x)
                    && !remove@.contains(x) && x != add) by {
                lemma_push_contains(old_heads.subrange(0, i as int), h, x);
                lemma_push_contains(before, h, x);
            }
            i += 1;
        }
        assert(old_heads.subrange(0, old_heads.len() as int) =~= old_heads);
        let ghost kept_before = kept@;
        kept.push(add);
        assert forall|x: u64|
            kept@.to_set().contains(x) <==> heads_after_update(old_heads, remove@, add).contains(
                x,
            ) by {
            lemma_push_contains(kept_before, add, x);
        }
        assert(kept@.to_set() =~= heads_after_update(old_heads, remove@, add));
        self.heads = kept;
        Ok(())
    }
}

} // verus!
