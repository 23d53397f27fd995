use vstd::prelude::*;

use crate::error::GraffError;
use crate::model::{entries_to_map, key_seq, lemma_entries_to_map, lemma_entries_to_map_insert,
    lemma_entries_to_map_push, lemma_entries_to_map_remove, lemma_entries_to_map_update,
    lemma_sorted_keys_no_duplicates, sorted_keys, NodeView, RibView};

verus! {

/// One outgoing edge: the index of the destination node and a payload.
#[derive(Debug, PartialEq)]
pub struct Rib<U> {
    pub target: usize,
    pub value: U,
}

/// One node: a payload and the ordered list of its outgoing edges.
#[derive(Debug, PartialEq)]
pub struct Node<T, U> {
    pub value: T,
    pub ribs: Vec<Rib<U>>,
}

/// A directed graph: a mapping from node index to node, stored as an
/// association list whose keys strictly increase. Keys need not be
/// contiguous after removals, and a freed index is never reused.
#[derive(Debug, PartialEq)]
pub struct DirectionalGraff<T, U> {
    pub nodes: Vec<(usize, Node<T, U>)>,
}

impl<U: DeepView> View for Rib<U> {
    type V = RibView<<U as DeepView>::V>;

    open spec fn view(&self) -> Self::V {
        RibView { target: self.target, value: self.value.deep_view() }
    }
}

impl<T: DeepView, U: DeepView> View for Node<T, U> {
    type V = NodeView<<T as DeepView>::V, <U as DeepView>::V>;

    open spec fn view(&self) -> Self::V {
        NodeView {
            value: self.value.deep_view(),
            edges: self.ribs@.map_values(|r: Rib<U>| r@),
        }
    }
}

impl<T: DeepView, U: DeepView> View for DirectionalGraff<T, U> {
    type V = Map<usize, NodeView<<T as DeepView>::V, <U as DeepView>::V>>;

    open spec fn view(&self) -> Self::V {
        entries_to_map(self.entry_seq())
    }
}

/// `b` lies at most `k` stored edges away from `a`; every step but the
/// last must leave a present node.
pub open spec fn reaches_in<TV, UV>(
    m: Map<usize, NodeView<TV, UV>>,
    a: usize,
    b: usize,
    k: nat,
) -> bool
    decreases k,
{
    a == b || (k > 0 && m.dom().contains(a) && exists|e: int|
        0 <= e < m[a].edges.len() && reaches_in(m, (#[trigger] m[a].edges[e]).target, b, (k
            - 1) as nat))
}

/// `b` can be reached from `a` by following stored edges; the last step
/// may land on an index that holds no node.
pub open spec fn reaches<TV, UV>(m: Map<usize, NodeView<TV, UV>>, a: usize, b: usize) -> bool {
    exists|k: nat| reaches_in(m, a, b, k)
}

/// The edge list with every edge to `to` dropped, order otherwise kept.
pub open spec fn drop_target<UV>(edges: Seq<RibView<UV>>, to: usize) -> Seq<RibView<UV>> {
    edges.filter(|e: RibView<UV>| e.target != to)
}

proof fn lemma_drop_target_push<UV>(s: Seq<RibView<UV>>, e: RibView<UV>, to: usize)
    ensures
        e.target != to ==> drop_target(s.push(e), to) == drop_target(s, to).push(e),
        e.target == to ==> drop_target(s.push(e), to) == drop_target(s, to),
{
    reveal_with_fuel(Seq::filter, 2);
    assert(s.push(e).drop_last() =~= s);
    assert(s.push(e).last() == e);
}

impl<U: DeepView> Rib<U> {
    pub fn new(target: usize, value: U) -> (r: Self)
        ensures
            r@ == (RibView { target: target, value: value.deep_view() }),
    {
        Rib { target, value }
    }
}

impl<T: DeepView, U: DeepView> Node<T, U> {
    pub fn new(value: T) -> (r: Self)
        ensures
            r@ == (NodeView {
                value: value.deep_view(),
                edges: Seq::<RibView<<U as DeepView>::V>>::empty(),
            }),
    {
        let r = Node { value, ribs: Vec::new() };
        proof {
            assert(r@.edges =~= Seq::<RibView<<U as DeepView>::V>>::empty());
        }
        r
    }

    fn add_rib(&mut self, target: usize, value: U)
        ensures
            final(self)@ == (NodeView {
                value: old(self)@.value,
                edges: old(self)@.edges.push((RibView { target: target, value: value.deep_view() })),
            }),
    {
        let new_rib = Rib::new(target, value);
        self.ribs.push(new_rib);
        proof {
            assert(final(self)@.edges =~= old(self)@.edges.push(
                (RibView { target: target, value: value.deep_view() })));
        }
    }

    fn remove_rib(&mut self, to: usize)
        ensures
            final(self)@ == (NodeView {
                value: old(self)@.value,
                edges: drop_target(old(self)@.edges, to),
            }),
    {
        let ghost orig = self.ribs@;
        let mut i: usize = 0;
        let ghost mut j: int = 0;
        while i < self.ribs.len()
            invariant
                0 <= j <= orig.len(),
                i <= self.ribs@.len(),
                self.ribs@.len() - i == orig.len() - j,
                self.value == old(self).value,
                self.ribs@.subrange(i as int, self.ribs@.len() as int) =~= orig.subrange(j,
                    orig.len() as int),
                self.ribs@.subrange(0, i as int).map_values(|r: Rib<U>| r@) =~= drop_target(
                    orig.subrange(0, j).map_values(|r: Rib<U>| r@), to),
            decreases orig.len() - j,
        {
            let ghost pre = self.ribs@;
            proof {
                assert(pre[i as int] == pre.subrange(i as int, pre.len() as int)[0]);
                assert(pre[i as int] == orig[j]);
                let vpre = orig.subrange(0, j).map_values(|r: Rib<U>| r@);
                let vnext = orig.subrange(0, j + 1).map_values(|r: Rib<U>| r@);
                assert(vnext =~= vpre.push(orig[j]@));
                lemma_drop_target_push(vpre, orig[j]@, to);
            }
            if self.ribs[i].target == to {
                self.ribs.remove(i);
                proof {
                    assert(self.ribs@.subrange(0, i as int) =~= pre.subrange(0, i as int));
                    assert forall|m: int|
                        i <= m < self.ribs@.len() implies #[trigger] self.ribs@[m] == orig[m - i
                            + j + 1] by {
                        assert(self.ribs@[m] == pre[m + 1]);
                        assert(pre[m + 1] == pre.subrange(i as int, pre.len() as int)[m + 1 - i]);
                    }
                    assert(self.ribs@.subrange(i as int, self.ribs@.len() as int) =~=
                        orig.subrange(j + 1, orig.len() as int));
                }
            } else {
                i = i + 1;
                proof {
                    assert(self.ribs@.subrange(0, i as int) =~= pre.subrange(0, i as int - 1).push(
                        orig[j]));
                    assert(self.ribs@.subrange(0, i as int).map_values(|r: Rib<U>| r@) =~=
                        pre.subrange(0, i as int - 1).map_values(|r: Rib<U>| r@).push(orig[j]@));
                    assert forall|m: int|
                        i <= m < self.ribs@.len() implies #[trigger] self.ribs@[m] == orig[m - i
                            + j + 1] by {
                        assert(pre[m] == pre.subrange(i as int - 1, pre.len() as int)[m - (i
                            - 1)]);
                    }
                    assert(self.ribs@.subrange(i as int, self.ribs@.len() as int) =~=
                        orig.subrange(j + 1, orig.len() as int));
                }
            }
            proof {
                j = j + 1;
            }
        }
        proof {
            assert(orig.subrange(0, orig.len() as int) =~= orig);
            assert(self.ribs@.subrange(0, i as int) =~= self.ribs@);
            assert(final(self)@.edges =~= drop_target(old(self)@.edges, to));
        }
    }
}

impl<T: DeepView, U: DeepView> DirectionalGraff<T, U> {
    /// The stored entries, each node replaced by its mathematical value.
    pub open spec fn entry_seq(self) -> Seq<(usize, NodeView<<T as DeepView>::V, <U as DeepView>::V>)> {
        self.nodes@.map_values(|p: (usize, Node<T, U>)| (p.0, p.1@))
    }

    /// The node indices in storage order.
    pub open spec fn graff_keys(self) -> Seq<usize> {
        key_seq(self.entry_seq())
    }

    /// Well-formed: node indices strictly increase along the storage order.
    pub open spec fn wf(self) -> bool {
        sorted_keys(self.graff_keys())
    }

    /// The index that the next inserted node receives; meaningful only
    /// when at least one node exists.
    pub open spec fn spec_next_key(self) -> usize
        recommends
            self.nodes@.len() > 0,
    {
        (self.graff_keys().last() + 1) as usize
    }

    /// Every edge of every node reachable from `from` points at a
    /// present node index; edges hanging off unreachable nodes are
    /// allowed.
    pub open spec fn reachable_targets_exist(self, from: usize) -> bool {
        forall|u: usize, e: int|
            reaches(self@, from, u) && self@.dom().contains(u) && 0 <= e < self@[u].edges.len()
                ==> self@.dom().contains((#[trigger] self@[u].edges[e]).target)
    }

    /// Relates the stored entry list to the map it stands for.
    pub proof fn lemma_view(self)
        requires
            self.wf(),
        ensures
            forall|k: usize|
                self@.dom().contains(k) <==> exists|i: int|
                    0 <= i < self.nodes@.len() && #[trigger] self.nodes@[i].0 == k,
            forall|i: int|
                0 <= i < self.nodes@.len() ==> self@.dom().contains(#[trigger] self.nodes@[i].0)
                    && self@[self.nodes@[i].0] == self.nodes@[i].1@,
            self@.dom().finite(),
            self@.dom().len() == self.nodes@.len(),
    {
        lemma_sorted_keys_no_duplicates(self.graff_keys());
        lemma_entries_to_map(self.entry_seq());
        let es = self.entry_seq();
        assert(forall|i: int|
            0 <= i < self.nodes@.len() ==> #[trigger] es[i] == (self.nodes@[i].0,
            self.nodes@[i].1@));
        assert forall|k: usize|
            self@.dom().contains(k) implies exists|i: int|
                0 <= i < self.nodes@.len() && #[trigger] self.nodes@[i].0 == k by {
            let i = choose|i: int| 0 <= i < es.len() && #[trigger] es[i].0 == k;
            assert(self.nodes@[i].0 == k);
        }
        assert forall|k: usize|
            (exists|i: int| 0 <= i < self.nodes@.len() && #[trigger] self.nodes@[i].0 == k)
                implies self@.dom().contains(k) by {
            let i = choose|i: int| 0 <= i < self.nodes@.len() && #[trigger] self.nodes@[i].0 == k;
            assert(es[i].0 == k);
        }
        assert forall|i: int|
            0 <= i < self.nodes@.len() implies self@.dom().contains(#[trigger] self.nodes@[i].0)
                && self@[self.nodes@[i].0] == self.nodes@[i].1@ by {
            assert(es[i].0 == self.nodes@[i].0);
            assert(self@[es[i].0] == es[i].1);
        }
    }

    /// Where `key` sits, or would sit, in the sorted entry list.
    fn find_slot(&self, key: usize) -> (r: (usize, bool))
        requires
            self.wf(),
        ensures
            r.0 <= self.nodes@.len(),
            r.1 <==> (r.0 < self.nodes@.len() && self.nodes@[r.0 as int].0 == key),
            forall|i: int| 0 <= i < r.0 ==> (#[trigger] self.nodes@[i].0) < key,
            !r.1 ==> forall|i: int|
                r.0 <= i < self.nodes@.len() ==> (#[trigger] self.nodes@[i].0) > key,
    {
        let mut i: usize = 0;
        while i < self.nodes.len() && self.nodes[i].0 < key
            invariant
                self.wf(),
                0 <= i <= self.nodes@.len(),
                forall|j: int| 0 <= j < i ==> (#[trigger] self.nodes@[j].0) < key,
            decreases self.nodes@.len() - i,
        {
            i = i + 1;
        }
        if i < self.nodes.len() && self.nodes[i].0 == key {
            (i, true)
        } else {
            proof {
                if i < self.nodes@.len() {
                    assert forall|jj: int|
                        i <= jj < self.nodes@.len() implies (#[trigger] self.nodes@[jj].0)
                            > key by {
                        assert(self.graff_keys()[jj] == self.nodes@[jj].0);
                        assert(self.graff_keys()[i as int] == self.nodes@[i as int].0);
                        if jj > i {
                            assert(self.graff_keys()[i as int] < self.graff_keys()[jj]);
                        }
                    }
                }
            }
            (i, false)
        }
    }

    /// The node stored under `key`, if any.
    pub(crate) fn lookup(&self, key: usize) -> (r: Option<&Node<T, U>>)
        requires
            self.wf(),
        ensures
            match r {
                Some(n) => self@.dom().contains(key) && n@ == self@[key],
                None => !self@.dom().contains(key),
            },
    {
        proof {
            self.lemma_view();
        }
        let (pos, found) = self.find_slot(key);
        if found {
            Some(&self.nodes[pos].1)
        } else {
            None
        }
    }

    /// A graph with no nodes at all; reachable through the public
    /// interface only by deserialization or by removing every node.
    pub(crate) fn empty() -> (g: Self)
        ensures
            g.wf(),
            g@ =~= Map::<usize, NodeView<<T as DeepView>::V, <U as DeepView>::V>>::empty(),
            g.nodes@.len() == 0,
    {
        let g = DirectionalGraff { nodes: Vec::new() };
        proof {
            assert(g.entry_seq() =~= Seq::<(usize, NodeView<<T as DeepView>::V,
                <U as DeepView>::V>)>::empty());
        }
        g
    }

    /// Creates a graph with a single node at index 0 and no edges; it
    /// holds exactly one node.
    pub fn new(first_node_value: T) -> (g: Self)
        ensures
            g.wf(),
            g@ =~= Map::<usize, NodeView<<T as DeepView>::V, <U as DeepView>::V>>::empty()
                .insert(0usize, (NodeView {
                    value: first_node_value.deep_view(),
                    edges: Seq::<RibView<<U as DeepView>::V>>::empty(),
                })),
            g@.dom() =~= Set::<usize>::empty().insert(0usize),
            g@.dom().len() == 1,
    {
        let mut nodes: Vec<(usize, Node<T, U>)> = Vec::new();
        let node = Node::new(first_node_value);
        nodes.push((0, node));
        let g = DirectionalGraff { nodes };
        proof {
            assert(g.entry_seq().len() == 1);
            assert(g.entry_seq().last() == (0usize, node@));
            assert(g.entry_seq().drop_last() =~= Seq::<(usize, NodeView<<T as DeepView>::V,
                <U as DeepView>::V>)>::empty());
            assert(entries_to_map(g.entry_seq().drop_last()) =~= Map::<usize,
                NodeView<<T as DeepView>::V, <U as DeepView>::V>>::empty());
        }
        g
    }

    /// The number of nodes currently present.
    pub fn len(&self) -> (n: usize)
        requires
            self.wf(),
        ensures
            n == self@.dom().len(),
            n == self.nodes@.len(),
    {
        proof {
            self.lemma_view();
        }
        self.nodes.len()
    }

    /// The next free node index: one past the largest present index.
    /// Fails exactly when the graph holds no node at all.
    pub fn get_next_key(&self) -> (r: Result<usize, GraffError>)
        requires
            self.wf(),
            forall|k: usize| self@.dom().contains(k) ==> k < usize::MAX,
        ensures
            r is Err <==> self@.dom() =~= Set::<usize>::empty(),
            r is Err ==> r == Err::<usize, GraffError>(GraffError::EmptyGraph),
            r matches Ok(k) ==> k == self.spec_next_key() && k >= 1 && self@.dom().contains(
                (k - 1) as usize) && forall|j: usize| self@.dom().contains(j) ==> j < k,
    {
        proof {
            self.lemma_view();
        }
        if self.nodes.len() == 0 {
            proof {
                assert(self@.dom() =~= Set::<usize>::empty());
            }
            Err(GraffError::EmptyGraph)
        } else {
            let last = self.nodes.len() - 1;
            let k = self.nodes[last].0;
            proof {
                assert(self@.dom().contains(k));
                assert forall|i: int|
                    0 <= i < self.nodes@.len() implies (#[trigger] self.nodes@[i].0) <= k by {
                    assert(self.graff_keys()[i] == self.nodes@[i].0);
                    assert(self.graff_keys()[last as int] == k);
                    if i < last {
                        assert(self.graff_keys()[i] < self.graff_keys()[last as int]);
                    }
                }
                assert forall|j: usize| self@.dom().contains(j) implies j < k + 1 by {
                    let i = choose|i: int|
                        0 <= i < self.nodes@.len() && #[trigger] self.nodes@[i].0 == j;
                }
                assert(self.graff_keys().last() == k);
            }
            Ok(k + 1)
        }
    }

    /// Replaces the node stored at list position `pos`, keeping its key.
    fn replace_at(&mut self, pos: usize, node: Node<T, U>)
        requires
            old(self).wf(),
            pos < old(self).nodes@.len(),
        ensures
            final(self).wf(),
            final(self).nodes@ =~= old(self).nodes@.update(pos as int, (old(
                self).nodes@[pos as int].0, node)),
            final(self)@ =~= old(self)@.insert(old(self).nodes@[pos as int].0, node@),
    {
        let k = self.nodes[pos].0;
        self.nodes.remove(pos);
        self.nodes.insert(pos, (k, node));
        proof {
            let s0 = old(self).nodes@;
            assert(self.nodes@ =~= s0.update(pos as int, (s0[pos as int].0, node)));
            assert(self.entry_seq() =~= old(self).entry_seq().update(pos as int, (s0[
                pos as int].0, node@)));
            assert(self.graff_keys() =~= old(self).graff_keys());
            lemma_sorted_keys_no_duplicates(old(self).graff_keys());
            lemma_entries_to_map_update(old(self).entry_seq(), pos as int, node@);
            assert(old(self).entry_seq()[pos as int].0 == s0[pos as int].0);
        }
    }

    /// Inserts a new node under `from`'s next free index, with one new
    /// edge from `from` to it. Fails with `EmptyGraph` when no node
    /// exists, and with `NoSuchNode` when `from` is absent; the graph is
    /// then left unchanged.
    pub fn add_node(&mut self, from: usize, rib_value: U, node_value: T) -> (r: Result<
        (),
        GraffError,
    >)
        requires
            old(self).wf(),
            forall|k: usize| old(self)@.dom().contains(k) ==> k < usize::MAX,
        ensures
            final(self).wf(),
            old(self)@.dom() =~= Set::<usize>::empty() ==> r == Err::<(), GraffError>(
                GraffError::EmptyGraph) && *final(self) == *old(self),
            !(old(self)@.dom() =~= Set::<usize>::empty()) && !old(self)@.dom().contains(from)
                ==> r == Err::<(), GraffError>(GraffError::NoSuchNode) && *final(self) == *old(self),
            old(self)@.dom().contains(from) ==> r == Ok::<(), GraffError>(()) && {
                let nk = old(self).spec_next_key();
                &&& !old(self)@.dom().contains(nk)
                &&& forall|j: usize| old(self)@.dom().contains(j) ==> j < nk
                &&& final(self)@ =~= old(self)@.insert(nk, (NodeView {
                    value: node_value.deep_view(),
                    edges: Seq::<RibView<<U as DeepView>::V>>::empty(),
                })).insert(from, (NodeView {
                    value: old(self)@[from].value,
                    edges: old(self)@[from].edges.push((RibView {
                        target: nk,
                        value: rib_value.deep_view(),
                    })),
                }))
            },
    {
        let next = match self.get_next_key() {
            Ok(k) => k,
            Err(e) => {
                proof {
                    self.lemma_view();
                }
                return Err(e);
            },
        };
        let (pos, found) = self.find_slot(from);
        proof {
            self.lemma_view();
        }
        if !found {
            return Err(GraffError::NoSuchNode);
        }
        let ghost pre = *self;
        let new_node: Node<T, U> = Node::new(node_value);
        self.nodes.push((next, new_node));
        proof {
            assert(self.entry_seq() =~= pre.entry_seq().push((next, new_node@)));
            assert(self.graff_keys() =~= pre.graff_keys().push(next));
            assert forall|a: int, b: int|
                0 <= a < b < self.graff_keys().len() implies self.graff_keys()[a]
                    < self.graff_keys()[b] by {
                if b < pre.graff_keys().len() {
                    assert(pre.graff_keys()[a] < pre.graff_keys()[b]);
                } else {
                    assert(self.graff_keys()[a] == pre.nodes@[a].0);
                    assert(pre@.dom().contains(pre.nodes@[a].0));
                }
            }
            lemma_entries_to_map_push(pre.entry_seq(), next, new_node@);
            assert(self.nodes@[pos as int] == pre.nodes@[pos as int]);
        }
        let ghost mid = *self;
        let mut entry = self.nodes.remove(pos);
        entry.1.add_rib(next, rib_value);
        self.nodes.insert(pos, entry);
        proof {
            let upd = entry.1;
            assert(self.nodes@ =~= mid.nodes@.update(pos as int, (from, upd)));
            assert(self.entry_seq() =~= mid.entry_seq().update(pos as int, (from, upd@)));
            assert(self.graff_keys() =~= mid.graff_keys());
            lemma_sorted_keys_no_duplicates(mid.graff_keys());
            lemma_entries_to_map_update(mid.entry_seq(), pos as int, upd@);
            assert(mid.entry_seq()[pos as int].0 == from);
            assert(pre@[from] == pre.nodes@[pos as int].1@);
            assert(final(self)@ =~= pre@.insert(next, new_node@).insert(from, upd@));
        }
        Ok(())
    }

    /// Appends one edge from `from` to `to`; `to` need not exist yet.
    /// Fails with `NoSuchNode` when `from` is absent, leaving the graph
    /// unchanged.
    pub fn add_rib(&mut self, from: usize, to: usize, rib_value: U) -> (r: Result<(), GraffError>)
        requires
            old(self).wf(),
        ensures
            final(self).wf(),
            !old(self)@.dom().contains(from) ==> r == Err::<(), GraffError>(GraffError::NoSuchNode)
                && *final(self) == *old(self),
            old(self)@.dom().contains(from) ==> r == Ok::<(), GraffError>(()) && final(self)@
                =~= old(self)@.insert(from, (NodeView {
                value: old(self)@[from].value,
                edges: old(self)@[from].edges.push((RibView {
                    target: to,
                    value: rib_value.deep_view(),
                })),
            })),
    {
        let (pos, found) = self.find_slot(from);
        proof {
            self.lemma_view();
        }
        if !found {
            return Err(GraffError::NoSuchNode);
        }
        let ghost pre = *self;
        let mut entry = self.nodes.remove(pos);
        entry.1.add_rib(to, rib_value);
        self.nodes.insert(pos, entry);
        proof {
            let upd = entry.1;
            assert(self.nodes@ =~= pre.nodes@.update(pos as int, (from, upd)));
            assert(self.entry_seq() =~= pre.entry_seq().update(pos as int, (from, upd@)));
            assert(self.graff_keys() =~= pre.graff_keys());
            lemma_sorted_keys_no_duplicates(pre.graff_keys());
            lemma_entries_to_map_update(pre.entry_seq(), pos as int, upd@);
            assert(pre.entry_seq()[pos as int].0 == from);
            assert(pre@[from] == pre.nodes@[pos as int].1@);
        }
        Ok(())
    }

    /// Removes every edge from `from` whose target equals `to`. Fails
    /// with `NoSuchNode` when `from` is absent, leaving the graph
    /// unchanged.
    pub fn remove_rib(&mut self, from: usize, to: usize) -> (r: Result<(), GraffError>)
        requires
            old(self).wf(),
        ensures
            final(self).wf(),
            !old(self)@.dom().contains(from) ==> r == Err::<(), GraffError>(GraffError::NoSuchNode)
                && *final(self) == *old(self),
            old(self)@.dom().contains(from) ==> r == Ok::<(), GraffError>(()) && final(self)@
                =~= old(self)@.insert(from, (NodeView {
                value: old(self)@[from].value,
                edges: drop_target(old(self)@[from].edges, to),
            })),
    {
        let (pos, found) = self.find_slot(from);
        proof {
            self.lemma_view();
        }
        if !found {
            return Err(GraffError::NoSuchNode);
        }
        let ghost pre = *self;
        let mut entry = self.nodes.remove(pos);
        entry.1.remove_rib(to);
        self.nodes.insert(pos, entry);
        proof {
            let upd = entry.1;
            assert(self.nodes@ =~= pre.nodes@.update(pos as int, (from, upd)));
            assert(self.entry_seq() =~= pre.entry_seq().update(pos as int, (from, upd@)));
            assert(self.graff_keys() =~= pre.graff_keys());
            lemma_sorted_keys_no_duplicates(pre.graff_keys());
            lemma_entries_to_map_update(pre.entry_seq(), pos as int, upd@);
            assert(pre.entry_seq()[pos as int].0 == from);
            assert(pre@[from] == pre.nodes@[pos as int].1@);
        }
        Ok(())
    }

    /// Removes the node at `node_number` and, in every remaining node,
    /// every edge targeting it. The edge cleanup runs over all nodes
    /// even when `node_number` is absent; only the removal itself then
    /// fails with `NoSuchNode`.
    pub fn remove_node(&mut self, node_number: usize) -> (r: Result<(), GraffError>)
        requires
            old(self).wf(),
        ensures
            final(self).wf(),
            r == Ok::<(), GraffError>(()) <==> old(self)@.dom().contains(node_number),
            r is Err ==> r == Err::<(), GraffError>(GraffError::NoSuchNode),
            final(self)@.dom() =~= old(self)@.dom().remove(node_number),
            forall|k: usize|
                final(self)@.dom().contains(k) ==> final(self)@[k] == (NodeView {
                    value: old(self)@[k].value,
                    edges: drop_target(old(self)@[k].edges, node_number),
                }),
    {
        let ghost s0 = self.nodes@;
        let mut i: usize = 0;
        while i < self.nodes.len()
            invariant
                old(self).wf(),
                s0 == old(self).nodes@,
                0 <= i <= self.nodes@.len(),
                self.nodes@.len() == s0.len(),
                forall|m: int| 0 <= m < s0.len() ==> (#[trigger] self.nodes@[m]).0 == s0[m].0,
                forall|m: int|
                    0 <= m < i ==> (#[trigger] self.nodes@[m]).1@ == (NodeView {
                        value: s0[m].1@.value,
                        edges: drop_target(s0[m].1@.edges, node_number),
                    }),
                forall|m: int| i <= m < s0.len() ==> (#[trigger] self.nodes@[m]).1 == s0[m].1,
            decreases s0.len() - i,
        {
            let ghost pre = self.nodes@;
            let mut entry = self.nodes.remove(i);
            entry.1.remove_rib(node_number);
            self.nodes.insert(i, entry);
            proof {
                assert(self.nodes@ =~= pre.update(i as int, (pre[i as int].0, entry.1)));
            }
            i = i + 1;
        }
        proof {
            assert(self.graff_keys() =~= old(self).graff_keys());
            old(self).lemma_view();
            lemma_sorted_keys_no_duplicates(self.graff_keys());
            lemma_entries_to_map(self.entry_seq());
            lemma_entries_to_map(old(self).entry_seq());
            assert forall|k: usize|
                self@.dom().contains(k) implies old(self)@.dom().contains(k) && self@[k]
                == (NodeView {
                value: old(self)@[k].value,
                edges: drop_target(old(self)@[k].edges, node_number),
            }) by {
                let m = choose|m: int|
                    0 <= m < self.entry_seq().len() && (#[trigger] self.entry_seq()[m]).0 == k;
                assert(self.nodes@[m].0 == k);
                assert(old(self).nodes@[m].0 == k);
                assert(self@[k] == self.nodes@[m].1@);
                assert(old(self)@[k] == old(self).nodes@[m].1@);
            }
            assert forall|k: usize|
                old(self)@.dom().contains(k) implies self@.dom().contains(k) by {
                let m = choose|m: int|
                    0 <= m < old(self).nodes@.len() && (#[trigger] old(self).nodes@[m]).0 == k;
                assert(self.nodes@[m].0 == k);
                assert(self.entry_seq()[m].0 == k);
            }
        }
        let ghost cleaned = *self;
        let (pos, found) = self.find_slot(node_number);
        proof {
            self.lemma_view();
        }
        if found {
            self.nodes.remove(pos);
            proof {
                assert(self.entry_seq() =~= cleaned.entry_seq().remove(pos as int));
                lemma_sorted_keys_no_duplicates(cleaned.graff_keys());
                lemma_entries_to_map_remove(cleaned.entry_seq(), pos as int);
                assert(cleaned.entry_seq()[pos as int].0 == node_number);
                assert(self.graff_keys() =~= cleaned.graff_keys().remove(pos as int));
                assert forall|a: int, b: int|
                    0 <= a < b < self.graff_keys().len() implies self.graff_keys()[a]
                        < self.graff_keys()[b] by {
                    let oa: int = if a < pos { a } else { a + 1 };
                    let ob: int = if b < pos { b } else { b + 1 };
                    assert(self.graff_keys()[a] == cleaned.graff_keys()[oa]);
                    assert(self.graff_keys()[b] == cleaned.graff_keys()[ob]);
                }
                assert(final(self)@.dom() =~= old(self)@.dom().remove(node_number));
            }
            Ok(())
        } else {
            proof {
                assert(!old(self)@.dom().contains(node_number));
                assert(final(self)@.dom() =~= old(self)@.dom().remove(node_number));
            }
            Err(GraffError::NoSuchNode)
        }
    }

    /// Stores `node` under `key`, replacing a prior node there if any.
    pub(crate) fn upsert(&mut self, key: usize, node: Node<T, U>)
        requires
            old(self).wf(),
        ensures
            final(self).wf(),
            final(self)@ =~= old(self)@.insert(key, node@),
    {
        let (pos, found) = self.find_slot(key);
        if found {
            self.replace_at(pos, node);
        } else {
            let ghost pre = *self;
            self.nodes.insert(pos, (key, node));
            proof {
                assert(self.entry_seq() =~= pre.entry_seq().insert(pos as int, (key, node@)));
                lemma_sorted_keys_no_duplicates(pre.graff_keys());
                assert(!key_seq(pre.entry_seq()).contains(key)) by {
                    if key_seq(pre.entry_seq()).contains(key) {
                        let m = choose|m: int|
                            0 <= m < pre.graff_keys().len() && #[trigger] pre.graff_keys()[m]
                                == key;
                        assert(pre.nodes@[m].0 == key);
                    }
                }
                lemma_entries_to_map_insert(pre.entry_seq(), pos as int, key, node@);
                assert(self.graff_keys() =~= pre.graff_keys().insert(pos as int, key));
                assert forall|a: int, b: int|
                    0 <= a < b < self.graff_keys().len() implies self.graff_keys()[a]
                        < self.graff_keys()[b] by {
                    let oa: int = if a < pos { a } else { a - 1 };
                    let ob: int = if b < pos { b } else { b - 1 };
                    if a != pos && b != pos {
                        assert(self.graff_keys()[a] == pre.nodes@[oa].0);
                        assert(self.graff_keys()[b] == pre.nodes@[ob].0);
                        assert(pre.graff_keys()[oa] < pre.graff_keys()[ob]);
                    } else if a == pos {
                        assert(self.graff_keys()[b] == pre.nodes@[ob].0);
                        assert(pre.nodes@[ob].0 > key);
                    } else {
                        assert(self.graff_keys()[a] == pre.nodes@[oa].0);
                        assert(pre.nodes@[oa].0 < key);
                    }
                }
            }
        }
    }
}

} // verus!
