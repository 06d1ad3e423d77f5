use std::collections::BTreeSet;
use vstd::prelude::*;

verus! {

broadcast use vstd::std_specs::btree::group_btree_axioms;

/// A stable handle naming a node in the arena of one `Dag`.
pub type NodeId = usize;

/// A payload and the handles of the nodes it points to.
pub struct Node<T> {
    pub elem: T,
    pub children: BTreeSet<NodeId>,
}

/// The condition reported when a handle names no node of the arena.
#[derive(Debug, Clone, Copy, PartialEq, Eq, Structural)]
pub enum DagError {
    UnknownNode(NodeId),
}

/// An append-only arena of nodes together with the set of nodes that
/// have never been given a parent.
pub struct Dag<T: Ord> {
    pub roots: BTreeSet<NodeId>,
    pub nodes: Vec<Node<T>>,
}

impl<T: Ord> Node<T> {
    /// A node holding `elem`, with no children.
    pub fn new(elem: T) -> (r: Self)
        ensures
            r.elem == elem,
            r.children@ == Set::<NodeId>::empty(),
    {
        Node { elem, children: BTreeSet::new() }
    }
}

/// The first handle of `ids` that is not below `n`, if any.
pub open spec fn first_unknown(ids: Seq<NodeId>, n: nat) -> Option<NodeId>
    decreases ids.len(),
{
    if ids.len() == 0 {
        None
    } else if ids[0] >= n {
        Some(ids[0])
    } else {
        first_unknown(ids.drop_first(), n)
    }
}

/// No handle of `ids` is unknown exactly when every one is below `n`.
pub proof fn lemma_first_unknown(ids: Seq<NodeId>, n: nat)
    ensures
        first_unknown(ids, n) is None <==> forall|j: int| 0 <= j < ids.len() ==> (#[trigger] ids[j] as nat) < n,
    decreases ids.len(),
{
    if ids.len() > 0 {
        lemma_first_unknown(ids.drop_first(), n);
        assert forall|j: int| 0 < j < ids.len() implies #[trigger] ids[j] == ids.drop_first()[j - 1] by {}
    }
}

impl<T: Ord> Default for Dag<T> {
    /// An empty graph.
    fn default() -> (r: Self)
        ensures
            r.wf(),
            r.nodes@.len() == 0,
            r.roots@ == Set::<NodeId>::empty(),
    {
        Self::new()
    }
}

/// Copies the members of a set into a vector, each once.
pub(crate) fn members(s: &BTreeSet<NodeId>) -> (v: Vec<NodeId>)
    ensures
        v@.to_set() == s@,
        v@.no_duplicates(),
{
    let mut v: Vec<NodeId> = Vec::new();
    for x in it: s.iter()
        invariant
            v@ == it.seq().take(it.index() as int).map_values(|r: &NodeId| *r),
            it.seq().unref().to_set() == s@,
            it.seq().unref().no_duplicates(),
            v@.len() == it.seq().len() ==> v@.to_set() == s@,
            v@.no_duplicates(),
    {
        v.push(*x);
        assert(v@.len() == it.seq().len() ==> v@ =~= it.seq().unref());
    }
    if v.len() == 0 {
        assert(v@.to_set() =~= s@);
    }
    v
}

impl<T: Ord> Dag<T> {
    /// The children of node `i`.
    pub open spec fn children_of(&self, i: int) -> Set<NodeId> {
        self.nodes@[i].children@
    }

    /// There is an edge from `p` to `c`.
    pub open spec fn edge(&self, p: NodeId, c: NodeId) -> bool {
        &&& (p as int) < self.nodes.len()
        &&& self.children_of(p as int).contains(c)
    }

    /// `w` is a non-empty sequence of nodes, each joined to the next by an edge.
    pub open spec fn is_walk(&self, w: Seq<NodeId>) -> bool {
        &&& w.len() > 0
        &&& forall|k: int| 0 <= k < w.len() - 1 ==> #[trigger] self.edge(w[k], w[k + 1])
    }

    /// Some walk leads from `u` to `v` (every node reaches itself).
    pub open spec fn reaches(&self, u: NodeId, v: NodeId) -> bool {
        exists|w: Seq<NodeId>| #[trigger] self.is_walk(w) && w[0] == u && w.last() == v
    }

    /// Some node of `starts` reaches `v`.
    pub open spec fn reached_from(&self, starts: Seq<NodeId>, v: NodeId) -> bool {
        exists|j: int| 0 <= j < starts.len() && self.reaches(#[trigger] starts[j], v)
    }

    /// Some root reaches `v`.
    pub open spec fn reachable(&self, v: NodeId) -> bool {
        exists|r: NodeId| #[trigger] self.roots@.contains(r) && self.reaches(r, v)
    }

    /// The number of edges leaving the nodes below `k`, reached or not.
    pub open spec fn edges_below(&self, k: int) -> nat
        decreases k,
    {
        if k <= 0 {
            0
        } else {
            self.edges_below(k - 1) + self.children_of(k - 1).len()
        }
    }

    /// The number of edges in the graph.
    pub open spec fn edge_total(&self) -> nat {
        self.edges_below(self.nodes.len() as int)
    }

    /// `self` has the nodes and roots of `other` and only edges of `other`.
    pub open spec fn is_subgraph_of(&self, other: Self) -> bool {
        &&& self.nodes.len() == other.nodes.len()
        &&& self.roots@ == other.roots@
        &&& forall|i: int|
            0 <= i < self.nodes.len() ==> #[trigger] self.children_of(i).subset_of(
                other.children_of(i),
            )
    }

    /// No walk passes a node twice: the graph has no cycle at all.
    pub open spec fn is_acyclic(&self) -> bool {
        forall|w: Seq<NodeId>| #[trigger] self.is_walk(w) ==> w.no_duplicates()
    }

    /// `self` is `before` with one more node, which has no children and is a
    /// root.
    pub open spec fn adds_leaf(&self, before: Self) -> bool {
        &&& self.nodes.len() == before.nodes.len() + 1
        &&& forall|i: int| 0 <= i < before.nodes.len() ==> self.nodes@[i] == before.nodes@[i]
        &&& self.children_of(before.nodes.len() as int) == Set::<NodeId>::empty()
        &&& self.roots@ == before.roots@.insert(before.nodes.len() as NodeId)
    }

    /// `self` is `before` with the edge from `p` to `c` added and `c` taken
    /// out of the roots.
    pub open spec fn adds_edge(&self, before: Self, p: NodeId, c: NodeId) -> bool {
        &&& self.nodes.len() == before.nodes.len()
        &&& (p as int) < before.nodes.len()
        &&& forall|i: int| 0 <= i < before.nodes.len() && i != p ==> self.nodes@[i] == before.nodes@[i]
        &&& self.nodes@[p as int].elem == before.nodes@[p as int].elem
        &&& self.children_of(p as int) == before.children_of(p as int).insert(c)
        &&& self.roots@ == before.roots@.remove(c)
    }

    /// Some walk from a root passes one node twice, so a cycle lies within
    /// reach of the roots.
    pub open spec fn has_reachable_cycle(&self) -> bool {
        exists|w: Seq<NodeId>|
            #[trigger] self.is_walk(w) && self.roots@.contains(w[0]) && !w.no_duplicates()
    }

    /// A walk of two or more edges leads from `u` to `x`: through a child of
    /// `u` and on from one of that child's children.
    pub open spec fn reaches_by_detour(&self, u: NodeId, x: NodeId) -> bool {
        exists|c: NodeId, g: NodeId|
            #[trigger] self.edge(u, c) && #[trigger] self.edge(c, g) && self.reaches(g, x)
    }

    /// The children that node `i` keeps under reduction: all of them when no
    /// root reaches `i`, else those that `i` does not also reach by a detour.
    pub open spec fn reduced_children(&self, i: int) -> Set<NodeId> {
        if self.reachable(i as NodeId) {
            self.children_of(i).filter(|x: NodeId| !self.reaches_by_detour(i as NodeId, x))
        } else {
            self.children_of(i)
        }
    }

    /// `self` is `before` with each edge removed that leaves a node some root
    /// reaches and whose head that node also reaches by a detour. Payloads,
    /// handles and roots stay as they were.
    pub open spec fn is_reduction_of(&self, before: Self) -> bool {
        &&& self.wf()
        &&& self.nodes.len() == before.nodes.len()
        &&& self.roots@ == before.roots@
        &&& forall|i: int|
            0 <= i < self.nodes.len() ==> #[trigger] self.nodes@[i].elem == before.nodes@[i].elem
        &&& forall|i: int|
            0 <= i < self.nodes.len() ==> #[trigger] self.children_of(i) == before.reduced_children(i)
    }

    /// The number of edges leaving the nodes below `k` that some root reaches.
    pub open spec fn reachable_edges_below(&self, k: int) -> nat
        decreases k,
    {
        if k <= 0 {
            0
        } else {
            self.reachable_edges_below(k - 1) + if self.reachable((k - 1) as NodeId) {
                self.children_of(k - 1).len()
            } else {
                0
            }
        }
    }

    /// The number of edges leaving nodes that some root reaches.
    pub open spec fn reachable_edge_count(&self) -> nat {
        self.reachable_edges_below(self.nodes.len() as int)
    }

    /// Every handle held in the graph names a node of the arena, child sets are
    /// finite, and no root has a parent.
    pub open spec fn wf(&self) -> bool {
        &&& forall|i: int| 0 <= i < self.nodes.len() ==> #[trigger] self.children_of(i).finite()
        &&& forall|i: int, c: NodeId|
            0 <= i < self.nodes.len() && #[trigger] self.children_of(i).contains(c) ==> c
                < self.nodes.len()
        &&& forall|r: NodeId| #[trigger] self.roots@.contains(r) ==> r < self.nodes.len()
        &&& forall|i: int, r: NodeId|
            #![trigger self.roots@.contains(r), self.children_of(i).contains(r)]
            0 <= i < self.nodes.len() && self.roots@.contains(r) ==> !self.children_of(i).contains(r)
    }

    /// An empty graph.
    pub fn new() -> (r: Self)
        ensures
            r.wf(),
            r.nodes@.len() == 0,
            r.roots@ == Set::<NodeId>::empty(),
    {
        Dag { roots: BTreeSet::new(), nodes: Vec::new() }
    }

    /// Appends a node holding `elem` with no children; it becomes a root.
    pub fn add_node(&mut self, elem: T) -> (id: NodeId)
        requires
            old(self).wf(),
        ensures
            final(self).wf(),
            id == old(self).nodes.len(),
            final(self).adds_leaf(*old(self)),
            final(self).nodes@[id as int].elem == elem,
    {
        let index = self.nodes.len();
        self.nodes.push(Node::new(elem));
        self.roots.insert(index);
        proof {
            assert(self.children_of(index as int) == Set::<NodeId>::empty());
            assert forall|i: int| 0 <= i < self.nodes.len() implies #[trigger] self.children_of(i).finite() by {
                if i < index {
                    assert(self.children_of(i) == old(self).children_of(i));
                }
            }
            assert forall|i: int, c: NodeId|
                0 <= i < self.nodes.len() && #[trigger] self.children_of(i).contains(c) implies c
                    < self.nodes.len() by {
                if i < index {
                    assert(self.children_of(i) == old(self).children_of(i));
                }
            }
            assert forall|i: int, r: NodeId|
                #![trigger self.roots@.contains(r), self.children_of(i).contains(r)]
                0 <= i < self.nodes.len() && self.roots@.contains(r) implies !self.children_of(i).contains(r) by {
                if i < index {
                    assert(self.children_of(i) == old(self).children_of(i));
                    if r != index {
                        assert(old(self).roots@.contains(r));
                    } else {
                        if old(self).children_of(i).contains(r) {
                            assert(r < old(self).nodes.len());
                        }
                    }
                }
            }
        }
        index
    }

    /// Adds the edge from `parent` to `child` (adding it again changes nothing)
    /// and takes `child` out of the roots. Fails, changing nothing, when either
    /// handle names no node; the parent is reported first.
    pub fn add_edge(&mut self, parent: NodeId, child: NodeId) -> (r: Result<(), DagError>)
        requires
            old(self).wf(),
        ensures
            final(self).wf(),
            parent >= old(self).nodes.len() ==> r == Err::<(), DagError>(
                DagError::UnknownNode(parent),
            ),
            parent < old(self).nodes.len() && child >= old(self).nodes.len() ==> r == Err::<
                (),
                DagError,
            >(DagError::UnknownNode(child)),
            parent < old(self).nodes.len() && child < old(self).nodes.len() ==> r is Ok,
            r is Err ==> *final(self) == *old(self),
            r is Ok ==> final(self).adds_edge(*old(self), parent, child),
    {
        if parent >= self.nodes.len() {
            return Err(DagError::UnknownNode(parent));
        }
        if child >= self.nodes.len() {
            return Err(DagError::UnknownNode(child));
        }
        self.nodes[parent].children.insert(child);
        self.roots.remove(&child);
        proof {
            assert forall|i: int| 0 <= i < self.nodes.len() implies #[trigger] self.children_of(i).finite() by {
                if i != parent {
                    assert(self.children_of(i) == old(self).children_of(i));
                } else {
                    assert(old(self).children_of(i).finite());
                }
            }
            assert forall|i: int, c: NodeId|
                0 <= i < self.nodes.len() && #[trigger] self.children_of(i).contains(c) implies c
                    < self.nodes.len() by {
                if i != parent {
                    assert(self.children_of(i) == old(self).children_of(i));
                } else if c != child {
                    assert(old(self).children_of(i).contains(c));
                }
            }
            assert forall|i: int, r: NodeId|
                #![trigger self.roots@.contains(r), self.children_of(i).contains(r)]
                0 <= i < self.nodes.len() && self.roots@.contains(r) implies !self.children_of(i).contains(r) by {
                assert(old(self).roots@.contains(r));
                assert(!old(self).children_of(i).contains(r));
                assert(r != child);
                if i != parent {
                    assert(self.children_of(i) == old(self).children_of(i));
                }
            }
        }
        Ok(())
    }

    /// Appends a node holding `elem` and adds an edge from it to each of
    /// `children` in turn. Fails, changing nothing, when some child names no
    /// node.
    pub fn add_node_with_children(&mut self, elem: T, children: Vec<NodeId>) -> (r: Result<
        NodeId,
        DagError,
    >)
        requires
            old(self).wf(),
        ensures
            final(self).wf(),
            r is Err <==> first_unknown(children@, old(self).nodes.len() as nat) is Some,
            r is Err ==> r == Err::<NodeId, DagError>(
                DagError::UnknownNode(first_unknown(children@, old(self).nodes.len() as nat)->0),
            ),
            r is Err ==> *final(self) == *old(self),
            r is Ok ==> {
                let id = r->Ok_0;
                &&& id == old(self).nodes.len()
                &&& final(self).nodes.len() == old(self).nodes.len() + 1
                &&& final(self).nodes@[id as int].elem == elem
                &&& final(self).children_of(id as int) == children@.to_set()
                &&& forall|i: int|
                    0 <= i < old(self).nodes.len() ==> final(self).nodes@[i] == old(self).nodes@[i]
                &&& final(self).roots@ == old(self).roots@.insert(id).difference(children@.to_set())
            },
    {
        let n = self.nodes.len();
        let mut k: usize = 0;
        assert(children@.skip(0) == children@);
        while k < children.len()
            invariant
                self.wf(),
                *self == *old(self),
                n == self.nodes.len(),
                k <= children.len(),
                forall|j: int| 0 <= j < k ==> #[trigger] children@[j] < n,
                first_unknown(children@, n as nat) == first_unknown(children@.skip(k as int), n as nat),
            decreases children.len() - k,
        {
            proof {
                assert(children@.skip(k as int).drop_first() == children@.skip(k + 1));
            }
            if children[k] >= n {
                return Err(DagError::UnknownNode(children[k]));
            }
            k = k + 1;
        }
        proof {
            assert(children@.skip(k as int).len() == 0);
        }
        proof {
            lemma_first_unknown(children@, n as nat);
        }
        let id = self.add_node(elem);
        let ghost base = *self;
        let mut k: usize = 0;
        while k < children.len()
            invariant
                self.wf(),
                id == n,
                base.nodes.len() == n + 1,
                self.nodes.len() == n + 1,
                k <= children.len(),
                forall|j: int| 0 <= j < children.len() ==> #[trigger] children@[j] < n,
                forall|i: int| 0 <= i < n ==> self.nodes@[i] == base.nodes@[i],
                self.nodes@[id as int].elem == base.nodes@[id as int].elem,
                self.children_of(id as int) == children@.take(k as int).to_set(),
                self.roots@ == base.roots@.difference(children@.take(k as int).to_set()),
            decreases children.len() - k,
        {
            let res = self.add_edge(id, children[k]);
            proof {
                assert(res is Ok);
                assert(children@.take(k + 1) == children@.take(k as int).push(children@[k as int]));
                children@.take(k as int).lemma_push_to_set_commute(children@[k as int]);
                assert(self.roots@ =~= base.roots@.difference(children@.take(k + 1).to_set()));
            }
            k = k + 1;
        }
        proof {
            assert(children@.take(k as int) == children@);
            if children@.len() == 0 {
                assert(children@.to_set() =~= Set::<NodeId>::empty());
            }
        }
        Ok(id)
    }
}

} // verus!
