use vstd::prelude::*;

use queues::Queue;

use crate::error::GraffError;
use crate::graph::{reaches, reaches_in, DirectionalGraff, Node};
use crate::model::NodeView;
use crate::qwrap::{queue_add, queue_indices, queue_new, queue_remove, queue_size};
use crate::visited::VisitedSet;

verus! {

/// One more stored edge out of a present node extends a walk.
proof fn lemma_reaches_in_step<TV, UV>(
    m: Map<usize, NodeView<TV, UV>>,
    a: usize,
    u: usize,
    e: int,
    k: nat,
)
    requires
        reaches_in(m, a, u, k),
        m.dom().contains(u),
        0 <= e < m[u].edges.len(),
    ensures
        reaches_in(m, a, m[u].edges[e].target, (k + 1) as nat),
    decreases k,
{
    let t = m[u].edges[e].target;
    if a == u {
        assert(reaches_in(m, t, t, k));
        assert(m[a].edges[e].target == t);
        assert(reaches_in(m, a, t, (k + 1) as nat));
    } else {
        let e0 = choose|e0: int|
            0 <= e0 < m[a].edges.len() && reaches_in(m, (#[trigger] m[a].edges[e0]).target, u, (k
                - 1) as nat);
        lemma_reaches_in_step(m, m[a].edges[e0].target, u, e, (k - 1) as nat);
        assert(reaches_in(m, m[a].edges[e0].target, t, k));
        assert(reaches_in(m, a, t, (k + 1) as nat));
    }
}

proof fn lemma_reaches_step<TV, UV>(m: Map<usize, NodeView<TV, UV>>, a: usize, u: usize, e: int)
    requires
        reaches(m, a, u),
        m.dom().contains(u),
        0 <= e < m[u].edges.len(),
    ensures
        reaches(m, a, m[u].edges[e].target),
{
    let k = choose|k: nat| reaches_in(m, a, u, k);
    lemma_reaches_in_step(m, a, u, e, k);
}

/// A set of indices closed under stored edges holds everything
/// reachable from any of its members.
proof fn lemma_reaches_closed<TV, UV>(
    m: Map<usize, NodeView<TV, UV>>,
    vs: Seq<usize>,
    a: usize,
    b: usize,
    k: nat,
)
    requires
        vs.contains(a),
        reaches_in(m, a, b, k),
        forall|u: usize, e: int|
            vs.contains(u) && m.dom().contains(u) && 0 <= e < m[u].edges.len() ==> vs.contains(
                (#[trigger] m[u].edges[e]).target),
    ensures
        vs.contains(b),
    decreases k,
{
    if a != b {
        let e0 = choose|e0: int|
            0 <= e0 < m[a].edges.len() && reaches_in(m, (#[trigger] m[a].edges[e0]).target, b, (k
                - 1) as nat);
        assert(vs.contains(m[a].edges[e0].target));
        lemma_reaches_closed(m, vs, m[a].edges[e0].target, b, (k - 1) as nat);
    }
}

impl<T: DeepView, U: DeepView> DirectionalGraff<T, U> {
    /// Breadth-first search from `from`, visiting each reachable node at
    /// most once, a node's edges in stored order. The predicate is
    /// evaluated on the start node first, then on each newly discovered
    /// node; on the first `true` the search stops at once and returns
    /// that node's index. A dangling edge surfaces as `NoSuchNode` when
    /// the traversal walks into it.
    pub fn bfs<F: Fn(&Node<T, U>, usize) -> bool>(&self, from: usize, exit_condition: F) -> (r:
        Result<Option<usize>, GraffError>)
        requires
            self.wf(),
            forall|n: &Node<T, U>, i: usize| #[trigger] exit_condition.requires((n, i)),
        ensures
            !self@.dom().contains(from) ==> r == Err::<Option<usize>, GraffError>(
                GraffError::NoSuchNode),
            self@.dom().contains(from) && self.reachable_targets_exist(from) ==> r is Ok,
            r matches Ok(Some(i)) ==> self@.dom().contains(i) && reaches(self@, from, i)
                && exists|n: Node<T, U>| n@ == self@[i] && exit_condition.ensures((&n, i), true),
            self@.dom().contains(from) && self.reachable_targets_exist(from) && (exists|i: usize|
                #[trigger] reaches(self@, from, i) && self@.dom().contains(i) && (forall|
                    n: Node<T, U>,
                |
                    n@ == self@[i] ==> !(#[trigger] exit_condition.ensures((&n, i), false))))
                ==> (r matches Ok(Some(_))),
            self@.dom().contains(from) && self.reachable_targets_exist(from) && (forall|
                n: Node<T, U>,
                i: usize,
            |
                reaches(self@, from, i) && self@.dom().contains(i) && n@ == self@[i] ==> !(
                #[trigger] exit_condition.ensures((&n, i), true))) ==> r == Ok::<
                Option<usize>,
                GraffError,
            >(None),
            self@.dom().contains(from) && !self.reachable_targets_exist(from) && (forall|
                n: Node<T, U>,
                i: usize,
            |
                reaches(self@, from, i) && self@.dom().contains(i) && n@ == self@[i] ==> !(
                #[trigger] exit_condition.ensures((&n, i), true))) ==> r == Err::<
                Option<usize>,
                GraffError,
            >(GraffError::NoSuchNode),
            self@.dom().contains(from) && (forall|n: Node<T, U>|
                n@ == self@[from] ==> !(#[trigger] exit_condition.ensures((&n, from), false)))
                ==> r == Ok::<Option<usize>, GraffError>(Some(from)),
    {
        proof {
            self.lemma_view();
        }
        let start = match self.lookup(from) {
            Some(n) => n,
            None => {
                return Err(GraffError::NoSuchNode);
            },
        };
        if exit_condition(start, from) {
            proof {
                assert(exit_condition.ensures((start, from), true));
                assert(reaches_in(self@, from, from, 0nat));
                assert(reaches(self@, from, from));
            }
            return Ok(Some(from));
        }
        let mut queue: Queue<usize> = queue_new();
        queue_add(&mut queue, from);
        let mut visited = VisitedSet::new();
        visited.insert(from);
        proof {
            visited.lemma_bounded(self@.dom());
            assert(exit_condition.ensures((start, from), false));
            assert(reaches_in(self@, from, from, 0nat));
            assert(queue_indices(queue) =~= Seq::<usize>::empty().push(from));
            assert(queue_indices(queue)[0] == from);
            assert forall|b: usize| visited.has(b) implies b == from by {
                let p = choose|p: int|
                    0 <= p < visited.indices().len() && visited.indices()[p] == b;
            }
        }
        loop
            invariant
                self.wf(),
                forall|n: &Node<T, U>, i: usize| #[trigger] exit_condition.requires((n, i)),
                self@.dom().contains(from),
                visited.inv(),
                visited.has(from),
                forall|k: usize| visited.has(k) ==> self@.dom().contains(k),
                forall|k: usize| visited.has(k) ==> reaches(self@, from, k),
                forall|k: usize|
                    visited.has(k) ==> exists|n: Node<T, U>|
                        n@ == self@[k] && exit_condition.ensures((&n, k), false),
                visited.indices().len() <= self.nodes@.len(),
                forall|j: int|
                    0 <= j < queue_indices(queue).len() ==> visited.has(
                        #[trigger] queue_indices(queue)[j]),
                forall|u: usize, e: int|
                    visited.has(u) && !queue_indices(queue).contains(u) && 0 <= e
                        < self@[u].edges.len() ==> visited.has(
                        (#[trigger] self@[u].edges[e]).target),
            decreases self.nodes@.len() - visited.indices().len(), queue_indices(queue).len(),
        {
            if queue_size(&queue) == 0 {
                proof {
                    let vs = visited.indices();
                    assert forall|u: usize, e: int|
                        vs.contains(u) && self@.dom().contains(u) && 0 <= e
                            < self@[u].edges.len() implies vs.contains(
                        (#[trigger] self@[u].edges[e]).target) by {
                        assert(visited.has(u));
                        assert(!queue_indices(queue).contains(u));
                    }
                    assert(vs.contains(from));
                    assert(self.reachable_targets_exist(from)) by {
                        if !self.reachable_targets_exist(from) {
                            let (u, e) = choose|u: usize, e: int|
                                reaches(self@, from, u) && self@.dom().contains(u) && 0 <= e
                                    < self@[u].edges.len() && !self@.dom().contains(
                                    (#[trigger] self@[u].edges[e]).target);
                            let k = choose|k: nat| reaches_in(self@, from, u, k);
                            lemma_reaches_closed(self@, vs, from, u, k);
                            assert(vs.contains(self@[u].edges[e].target));
                            assert(visited.has(self@[u].edges[e].target));
                        }
                    }
                    if exists|i: usize|
                        #[trigger] reaches(self@, from, i) && self@.dom().contains(i) && (forall|
                            n: Node<T, U>,
                        |
                            n@ == self@[i] ==> !(#[trigger] exit_condition.ensures((&n, i),
                            false))) {
                        let i = choose|i: usize|
                            #[trigger] reaches(self@, from, i) && self@.dom().contains(i) && (
                            forall|n: Node<T, U>|
                                n@ == self@[i] ==> !(#[trigger] exit_condition.ensures((&n, i),
                                false)));
                        let k = choose|k: nat| reaches_in(self@, from, i, k);
                        lemma_reaches_closed(self@, vs, from, i, k);
                        assert(visited.has(i));
                        let n = choose|n: Node<T, U>|
                            n@ == self@[i] && exit_condition.ensures((&n, i), false);
                        assert(false);
                    }
                }
                return Ok(None);
            }
            let ghost vlen0 = visited.indices().len();
            let ghost qbefore = queue_indices(queue);
            let idx = queue_remove(&mut queue);
            let ghost qdq = queue_indices(queue);
            let ghost qlen0 = qdq.len();
            proof {
                assert(visited.has(idx));
                assert forall|u: usize|
                    !qdq.contains(u) && u != idx implies !qbefore.contains(u) by {
                    if qbefore.contains(u) {
                        let p = choose|p: int| 0 <= p < qbefore.len() && qbefore[p] == u;
                        if p > 0 {
                            assert(qdq[p - 1] == u);
                        }
                    }
                }
            }
            let node = match self.lookup(idx) {
                Some(n) => n,
                None => {
                    return unreached();
                },
            };
            let mut j: usize = 0;
            while j < node.ribs.len()
                invariant
                    self.wf(),
                    forall|n: &Node<T, U>, i: usize| #[trigger] exit_condition.requires((n, i)),
                    self@.dom().contains(from),
                    self@.dom().contains(idx),
                    node@ == self@[idx],
                    0 <= j <= node.ribs@.len(),
                    visited.inv(),
                    visited.has(from),
                    visited.has(idx),
                    forall|k: usize| visited.has(k) ==> self@.dom().contains(k),
                    forall|k: usize| visited.has(k) ==> reaches(self@, from, k),
                    forall|k: usize|
                        visited.has(k) ==> exists|n: Node<T, U>|
                            n@ == self@[k] && exit_condition.ensures((&n, k), false),
                    visited.indices().len() <= self.nodes@.len(),
                    forall|m: int|
                        0 <= m < queue_indices(queue).len() ==> visited.has(
                            #[trigger] queue_indices(queue)[m]),
                    forall|u: usize, e: int|
                        u != idx && visited.has(u) && !queue_indices(queue).contains(u) && 0 <= e
                            < self@[u].edges.len() ==> visited.has(
                            (#[trigger] self@[u].edges[e]).target),
                    forall|e: int|
                        0 <= e < j ==> visited.has((#[trigger] self@[idx].edges[e]).target),
                    queue_indices(queue).len() - qlen0 == visited.indices().len() - vlen0,
                    visited.indices().len() >= vlen0,
                decreases node.ribs@.len() - j,
            {
                let target = node.ribs[j].target;
                proof {
                    assert(node@.edges[j as int] == node.ribs@[j as int]@);
                    assert(node@.edges[j as int].target == target);
                }
                if !visited.contains(target) {
                    let ghost vpre = visited;
                    visited.insert(target);
                    proof {
                        assert forall|k: usize| visited.has(k) implies vpre.has(k) || k
                            == target by {
                            let m = choose|m: int|
                                0 <= m < visited.indices().len() && visited.indices()[m] == k;
                            if m < visited.indices().len() - 1 {
                                assert(vpre.indices()[m] == k);
                            }
                        }
                        assert forall|k: usize| vpre.has(k) implies visited.has(k) by {
                            let m = choose|m: int|
                                0 <= m < vpre.indices().len() && vpre.indices()[m] == k;
                            assert(visited.indices()[m] == k);
                        }
                        assert(visited.indices()[visited.indices().len() - 1] == target);
                        assert(visited.has(target));
                        lemma_reaches_step(self@, from, idx, j as int);
                        assert(reaches(self@, from, target));
                    }
                    let tnode = match self.lookup(target) {
                        Some(n) => n,
                        None => {
                            proof {
                                assert(!self.reachable_targets_exist(from)) by {
                                    if self.reachable_targets_exist(from) {
                                        assert(reaches(self@, from, idx) && self@.dom().contains(
                                            idx) && 0 <= j < self@[idx].edges.len()
                                            && !self@.dom().contains(
                                            self@[idx].edges[j as int].target));
                                    }
                                }
                            }
                            return Err(GraffError::NoSuchNode);
                        },
                    };
                    if exit_condition(tnode, target) {
                        proof {
                            assert(exit_condition.ensures((tnode, target), true));
                        }
                        return Ok(Some(target));
                    }
                    proof {
                        assert(exit_condition.ensures((tnode, target), false));
                    }
                    let ghost qpre = queue_indices(queue);
                    queue_add(&mut queue, target);
                    proof {
                        assert forall|m: int|
                            0 <= m < queue_indices(queue).len() implies visited.has(
                            #[trigger] queue_indices(queue)[m]) by {
                            assert(visited.indices()[visited.indices().len() - 1] == target);
                            assert(visited.has(target));
                            if m < queue_indices(queue).len() - 1 {
                                assert(queue_indices(queue)[m] == qpre[m]);
                                assert(vpre.has(qpre[m]));
                            } else {
                                assert(queue_indices(queue)[m] == target);
                            }
                        }
                        assert forall|u: usize|
                            !queue_indices(queue).contains(u) implies !qpre.contains(u) && u
                            != target by {
                            if qpre.contains(u) {
                                let p = choose|p: int| 0 <= p < qpre.len() && qpre[p] == u;
                                assert(queue_indices(queue)[p] == u);
                            }
                            assert(queue_indices(queue)[queue_indices(queue).len() - 1]
                                == target);
                        }
                        self.lemma_view();
                        visited.lemma_bounded(self@.dom());
                    }
                }
                proof {
                    assert(visited.has(self@[idx].edges[j as int].target));
                }
                j = j + 1;
            }
            proof {
                assert forall|u: usize, e: int|
                    visited.has(u) && !queue_indices(queue).contains(u) && 0 <= e
                        < self@[u].edges.len() implies visited.has(
                    (#[trigger] self@[u].edges[e]).target) by {
                    if u == idx {
                        assert(self@[idx].edges.len() == node.ribs@.len());
                    }
                }
            }
        }
    }
}

} // verus!
