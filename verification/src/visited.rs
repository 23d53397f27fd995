use vstd::prelude::*;

verus! {

/// The node indices already reached during one traversal, each held once.
pub struct VisitedSet {
    pub items: Vec<usize>,
}

impl VisitedSet {
    pub open spec fn indices(self) -> Seq<usize> {
        self.items@
    }

    pub open spec fn inv(self) -> bool {
        self.items@.no_duplicates()
    }

    pub open spec fn has(self, k: usize) -> bool {
        self.items@.contains(k)
    }

    pub(crate) fn new() -> (s: Self)
        ensures
            s.inv(),
            s.indices() =~= Seq::<usize>::empty(),
    {
        VisitedSet { items: Vec::new() }
    }

    pub(crate) fn contains(&self, k: usize) -> (r: bool)
        ensures
            r == self.has(k),
    {
        let mut i: usize = 0;
        while i < self.items.len()
            invariant
                0 <= i <= self.items@.len(),
                forall|j: int| 0 <= j < i ==> (#[trigger] self.items@[j]) != k,
            decreases self.items@.len() - i,
        {
            if self.items[i] == k {
                return true;
            }
            i = i + 1;
        }
        false
    }

    pub(crate) fn insert(&mut self, k: usize)
        requires
            old(self).inv(),
            !old(self).has(k),
        ensures
            final(self).inv(),
            final(self).indices() == old(self).indices().push(k),
    {
        self.items.push(k);
        proof {
            assert forall|a: int, b: int|
                0 <= a < b < self.items@.len() implies self.items@[a] != self.items@[b] by {
                if b == self.items@.len() - 1 {
                    assert(old(self).items@[a] == self.items@[a]);
                }
            }
        }
    }

    pub(crate) fn count(&self) -> (n: usize)
        ensures
            n == self.indices().len(),
    {
        self.items.len()
    }

    /// A duplicate-free list drawn from a finite set is no longer than it.
    pub proof fn lemma_bounded(self, dom: Set<usize>)
        requires
            self.inv(),
            dom.finite(),
            forall|k: usize| self.has(k) ==> dom.contains(k),
        ensures
            self.indices().len() <= dom.len(),
    {
        self.indices().unique_seq_to_set();
        assert(self.indices().to_set().subset_of(dom));
        vstd::set_lib::lemma_len_subset(self.indices().to_set(), dom);
    }
}

} // verus!
