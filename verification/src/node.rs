//! Nodes, node indices, node counts and edges.

use vstd::prelude::*;
use crate::error::{Error, Result};
use crate::text::{decimal, push_decimal};
use crate::seqs::{
    count_of, idxs_of, first_index, is_first_position, lemma_first_index_bounds,
    lemma_first_position_is_first_index,
};

verus! {

/// The position of a node inside the arena that allocates it.
#[derive(Clone, Copy, PartialEq, Eq, Structural, PartialOrd, Ord, Hash, Debug)]
pub struct NodeIdx(pub usize);

impl NodeIdx {
    /// The arena slot that `self` designates.
    pub open spec fn id(self) -> int {
        self.0 as int
    }
}

impl From<usize> for NodeIdx {
    fn from(idx: usize) -> (r: Self)
        ensures
            r == NodeIdx(idx),
    {
        NodeIdx(idx)
    }
}

impl vstd::std_specs::convert::FromSpecImpl<usize> for NodeIdx {
    open spec fn obeys_from_spec() -> bool {
        true
    }

    open spec fn from_spec(v: usize) -> Self {
        NodeIdx(v)
    }
}

/// A number of nodes.
#[derive(Clone, Copy, PartialEq, Eq, Structural, PartialOrd, Ord, Debug)]
pub struct NodeCount(pub usize);

impl NodeCount {
    /// The count that `self` stands for.
    pub open spec fn count(self) -> nat {
        self.0 as nat
    }

    /// No nodes at all.
    pub fn zero() -> (r: Self)
        ensures
            r.count() == 0,
    {
        NodeCount(0)
    }

    /// The count as a plain number.
    pub fn get(self) -> (r: usize)
        ensures
            r == self.count(),
    {
        self.0
    }
}

impl std::ops::Deref for NodeCount {
    type Target = usize;

    fn deref(&self) -> (r: &usize)
        ensures
            *r == self.0,
    {
        &self.0
    }
}

impl From<usize> for NodeCount {
    fn from(n: usize) -> (r: Self)
        ensures
            r == NodeCount(n),
    {
        NodeCount(n)
    }
}

impl vstd::std_specs::convert::FromSpecImpl<usize> for NodeCount {
    open spec fn obeys_from_spec() -> bool {
        true
    }

    open spec fn from_spec(v: usize) -> Self {
        NodeCount(v)
    }
}

impl std::ops::Add<NodeCount> for NodeCount {
    type Output = NodeCount;

    fn add(self, rhs: NodeCount) -> (r: NodeCount)
        ensures
            r.count() == self.count() + rhs.count(),
    {
        NodeCount(self.0 + rhs.0)
    }
}

impl std::ops::Sub<NodeCount> for NodeCount {
    type Output = NodeCount;

    fn sub(self, rhs: NodeCount) -> (r: NodeCount)
        ensures
            r.count() == self.count() - rhs.count(),
    {
        NodeCount(self.0 - rhs.0)
    }
}

impl vstd::std_specs::ops::AddSpecImpl<NodeCount> for NodeCount {
    open spec fn obeys_add_spec() -> bool {
        true
    }

    open spec fn add_req(self, rhs: NodeCount) -> bool {
        self.0 + rhs.0 <= usize::MAX
    }

    open spec fn add_spec(self, rhs: NodeCount) -> NodeCount {
        NodeCount((self.0 + rhs.0) as usize)
    }
}

impl vstd::std_specs::ops::SubSpecImpl<NodeCount> for NodeCount {
    open spec fn obeys_sub_spec() -> bool {
        true
    }

    open spec fn sub_req(self, rhs: NodeCount) -> bool {
        rhs.0 <= self.0
    }

    open spec fn sub_spec(self, rhs: NodeCount) -> NodeCount {
        NodeCount((self.0 - rhs.0) as usize)
    }
}

impl NodeIdx {
    /// The displayed form of `self`: its slot, in decimal.
    pub fn to_string(&self) -> (r: String)
        ensures
            r@ == decimal(self.0 as nat),
    {
        let mut buf = String::new();
        push_decimal(&mut buf, self.0);
        buf
    }
}

impl std::ops::Add<usize> for NodeIdx {
    type Output = NodeIdx;

    fn add(self, rhs: usize) -> (r: NodeIdx)
        ensures
            r.0 == self.0 + rhs,
    {
        NodeIdx(self.0 + rhs)
    }
}

impl std::ops::Sub<usize> for NodeIdx {
    type Output = NodeIdx;

    fn sub(self, rhs: usize) -> (r: NodeIdx)
        ensures
            r.0 == self.0 - rhs,
    {
        NodeIdx(self.0 - rhs)
    }
}

impl vstd::std_specs::ops::AddSpecImpl<usize> for NodeIdx {
    open spec fn obeys_add_spec() -> bool {
        true
    }

    open spec fn add_req(self, rhs: usize) -> bool {
        self.0 + rhs <= usize::MAX
    }

    open spec fn add_spec(self, rhs: usize) -> NodeIdx {
        NodeIdx((self.0 + rhs) as usize)
    }
}

impl vstd::std_specs::ops::SubSpecImpl<usize> for NodeIdx {
    open spec fn obeys_sub_spec() -> bool {
        true
    }

    open spec fn sub_req(self, rhs: usize) -> bool {
        rhs <= self.0
    }

    open spec fn sub_spec(self, rhs: usize) -> NodeIdx {
        NodeIdx((self.0 - rhs) as usize)
    }
}

/// A directed edge from `src` to `dst` carrying `data`.
#[derive(Debug)]
pub struct Edge<I, R> {
    pub src: I,
    pub dst: I,
    pub data: R,
}

/// The abstract value of a `Node`.
#[verifier::ext_equal]
pub ghost struct NodeView<D, P, C> {
    pub idx: NodeIdx,
    pub parents: Seq<(NodeIdx, P)>,
    pub children: Seq<(NodeIdx, C)>,
    pub data: D,
}

/// A node that is allocated in an arena.  It knows its own index, the
/// parents it points to (with the data of each parent edge) and the children
/// it points to (with the data of each child edge).
#[derive(Clone, Debug, PartialEq, Eq, PartialOrd, Ord, Hash)]
pub struct Node<D, P, C> {
    pub idx: NodeIdx,
    pub parents: Vec<(NodeIdx, P)>,
    pub children: Vec<(NodeIdx, C)>,
    pub data: D,
}

impl<D, P, C> Node<D, P, C> {
    /// The abstract value of `self`.
    pub open spec fn view(&self) -> NodeView<D, P, C> {
        NodeView { idx: self.idx, parents: self.parents@, children: self.children@, data: self.data }
    }

    /// A node with neither parents nor children.
    pub fn new(idx: NodeIdx, data: D) -> (r: Self)
        ensures
            r@ == (NodeView::<D, P, C> { idx, parents: Seq::empty(), children: Seq::empty(), data }),
    {
        Node { idx, parents: Vec::with_capacity(2), children: Vec::with_capacity(4), data }
    }

    /// The parents of `self`, each with the data of its parent edge.
    pub fn parents(&self) -> (r: Vec<(NodeIdx, &P)>)
        ensures
            r@.len() == self.parents@.len(),
            forall|i: int|
                0 <= i < r@.len() ==> (#[trigger] r@[i]).0 == self.parents@[i].0 && *r@[i].1
                    == self.parents@[i].1,
    {
        let mut r: Vec<(NodeIdx, &P)> = Vec::with_capacity(self.parents.len());
        let mut i: usize = 0;
        while i < self.parents.len()
            invariant
                i <= self.parents@.len(),
                r@.len() == i,
                forall|k: int|
                    0 <= k < i ==> (#[trigger] r@[k]).0 == self.parents@[k].0 && *r@[k].1
                        == self.parents@[k].1,
            decreases self.parents@.len() - i,
        {
            r.push((self.parents[i].0, &self.parents[i].1));
            i = i + 1;
        }
        r
    }

    /// The indices of the parents of `self`, leftmost first.
    pub fn parent_idxs(&self) -> (r: Vec<NodeIdx>)
        ensures
            r@ == idxs_of(self.parents@),
    {
        let mut r: Vec<NodeIdx> = Vec::with_capacity(self.parents.len());
        let mut i: usize = 0;
        while i < self.parents.len()
            invariant
                i <= self.parents@.len(),
                r@ == idxs_of(self.parents@.take(i as int)),
            decreases self.parents@.len() - i,
        {
            r.push(self.parents[i].0);
            assert(self.parents@.take(i + 1) == self.parents@.take(i as int).push(self.parents@[i as int]));
            i = i + 1;
        }
        assert(self.parents@.take(i as int) == self.parents@);
        r
    }

    /// The parent edges of `self`: each runs from `self` to a parent.
    pub fn parent_edges(&self) -> (r: Vec<Edge<NodeIdx, &P>>)
        ensures
            r@.len() == self.parents@.len(),
            forall|i: int|
                0 <= i < r@.len() ==> (#[trigger] r@[i]).src == self.idx && r@[i].dst
                    == self.parents@[i].0 && *r@[i].data == self.parents@[i].1,
    {
        let mut r: Vec<Edge<NodeIdx, &P>> = Vec::with_capacity(self.parents.len());
        let mut i: usize = 0;
        while i < self.parents.len()
            invariant
                i <= self.parents@.len(),
                r@.len() == i,
                forall|k: int|
                    0 <= k < i ==> (#[trigger] r@[k]).src == self.idx && r@[k].dst
                        == self.parents@[k].0 && *r@[k].data == self.parents@[k].1,
            decreases self.parents@.len() - i,
        {
            r.push(Edge { src: self.idx, dst: self.parents[i].0, data: &self.parents[i].1 });
            i = i + 1;
        }
        r
    }

    /// The number of parents of `self`.
    pub fn count_parents(&self) -> (r: usize)
        ensures
            r == self.parents@.len(),
    {
        self.parents.len()
    }

    /// Whether `self` has at least one parent.
    pub fn has_parents(&self) -> (r: bool)
        ensures
            r == (self.parents@.len() != 0),
    {
        self.count_parents() != 0
    }

    /// Register `(pidx, pdata)` as the last parent of `self`.
    pub fn add_parent(&mut self, pidx: NodeIdx, pdata: P)
        ensures
            final(self)@ == (NodeView { parents: old(self)@.parents.push((pidx, pdata)), ..old(self)@ }),
    {
        self.parents.push((pidx, pdata));
    }

    /// Insert `(pidx, pdata)` as the `pos`-th parent of `self`.
    pub fn insert_parent(&mut self, pidx: NodeIdx, pdata: P, pos: usize)
        requires
            pos <= old(self).parents@.len(),
        ensures
            final(self)@ == (NodeView {
                parents: old(self)@.parents.insert(pos as int, (pidx, pdata)),
                ..old(self)@
            }),
    {
        self.parents.insert(pos, (pidx, pdata));
    }

    /// Filter out `parent_idx` from `self.parents`: the leftmost entry that
    /// points at it is removed and the data of its edge returned.
    /// Return an error if `self.parents` does not contain `parent_idx`.
    pub fn remove_parent(&mut self, parent_idx: NodeIdx) -> (r: Result<P>)
        ensures
            match r {
                Ok(pdata) => {
                    let i = first_index(old(self)@.parents, parent_idx);
                    &&& 0 <= i < old(self)@.parents.len()
                    &&& pdata == old(self)@.parents[i].1
                    &&& final(self)@ == (NodeView { parents: old(self)@.parents.remove(i), ..old(self)@ })
                },
                Err(e) => {
                    &&& first_index(old(self)@.parents, parent_idx) == -1
                    &&& count_of(old(self)@.parents, parent_idx) == 0
                    &&& e == Error::ParentNotFound {
                        node_idx: old(self)@.idx,
                        parent_idx: Some(parent_idx),
                    }
                    &&& final(self)@ == old(self)@
                },
            },
    {
        match self.get_parent_ordinal(parent_idx) {
            Some(ordinal) => {
                let ghost before = self@;
                proof {
                    lemma_first_index_bounds(before.parents, parent_idx);
                    assert(ordinal as int == first_index(before.parents, parent_idx));
                }
                let (_, pdata) = self.parents.remove(ordinal);
                assert(self@ == (NodeView { parents: before.parents.remove(ordinal as int), ..before }));
                Ok(pdata)
            },
            None => {
                proof {
                    lemma_first_index_bounds(self.parents@, parent_idx);
                }
                Err(Error::ParentNotFound { node_idx: self.idx, parent_idx: Some(parent_idx) })
            },
        }
    }

    /// The children of `self`, each with the data of its child edge.
    pub fn children(&self) -> (r: Vec<(NodeIdx, &C)>)
        ensures
            r@.len() == self.children@.len(),
            forall|i: int|
                0 <= i < r@.len() ==> (#[trigger] r@[i]).0 == self.children@[i].0 && *r@[i].1
                    == self.children@[i].1,
    {
        let mut r: Vec<(NodeIdx, &C)> = Vec::with_capacity(self.children.len());
        let mut i: usize = 0;
        while i < self.children.len()
            invariant
                i <= self.children@.len(),
                r@.len() == i,
                forall|k: int|
                    0 <= k < i ==> (#[trigger] r@[k]).0 == self.children@[k].0 && *r@[k].1
                        == self.children@[k].1,
            decreases self.children@.len() - i,
        {
            r.push((self.children[i].0, &self.children[i].1));
            i = i + 1;
        }
        r
    }

    /// The indices of the children of `self`, leftmost first.
    pub fn child_idxs(&self) -> (r: Vec<NodeIdx>)
        ensures
            r@ == idxs_of(self.children@),
    {
        let mut r: Vec<NodeIdx> = Vec::with_capacity(self.children.len());
        let mut i: usize = 0;
        while i < self.children.len()
            invariant
                i <= self.children@.len(),
                r@ == idxs_of(self.children@.take(i as int)),
            decreases self.children@.len() - i,
        {
            r.push(self.children[i].0);
            assert(self.children@.take(i + 1) == self.children@.take(i as int).push(
                self.children@[i as int],
            ));
            i = i + 1;
        }
        assert(self.children@.take(i as int) == self.children@);
        r
    }

    /// The child edges of `self`: each runs from `self` to a child.
    pub fn child_edges(&self) -> (r: Vec<Edge<NodeIdx, &C>>)
        ensures
            r@.len() == self.children@.len(),
            forall|i: int|
                0 <= i < r@.len() ==> (#[trigger] r@[i]).src == self.idx && r@[i].dst
                    == self.children@[i].0 && *r@[i].data == self.children@[i].1,
    {
        let mut r: Vec<Edge<NodeIdx, &C>> = Vec::with_capacity(self.children.len());
        let mut i: usize = 0;
        while i < self.children.len()
            invariant
                i <= self.children@.len(),
                r@.len() == i,
                forall|k: int|
                    0 <= k < i ==> (#[trigger] r@[k]).src == self.idx && r@[k].dst
                        == self.children@[k].0 && *r@[k].data == self.children@[k].1,
            decreases self.children@.len() - i,
        {
            r.push(Edge { src: self.idx, dst: self.children[i].0, data: &self.children[i].1 });
            i = i + 1;
        }
        r
    }

    /// The number of children of `self`.
    pub fn count_children(&self) -> (r: usize)
        ensures
            r == self.children@.len(),
    {
        self.children.len()
    }

    /// Whether `self` has at least one child.
    pub fn has_children(&self) -> (r: bool)
        ensures
            r == (self.children@.len() != 0),
    {
        self.count_children() != 0
    }

    /// Register `(cidx, cdata)` as the last child of `self`.
    pub fn add_child(&mut self, cidx: NodeIdx, cdata: C)
        ensures
            final(self)@ == (NodeView { children: old(self)@.children.push((cidx, cdata)), ..old(self)@ }),
    {
        self.children.push((cidx, cdata));
    }

    /// Insert `(cidx, cdata)` as the `pos`-th child of `self`.
    pub fn insert_child(&mut self, cidx: NodeIdx, cdata: C, pos: usize)
        requires
            pos <= old(self).children@.len(),
        ensures
            final(self)@ == (NodeView {
                children: old(self)@.children.insert(pos as int, (cidx, cdata)),
                ..old(self)@
            }),
    {
        self.children.insert(pos, (cidx, cdata));
    }

    /// Filter out `child_idx` from `self.children`: the leftmost entry that
    /// points at it is removed and the data of its edge returned.
    /// Return an error if `self.children` does not contain `child_idx`.
    pub fn remove_child(&mut self, child_idx: NodeIdx) -> (r: Result<C>)
        ensures
            match r {
                Ok(cdata) => {
                    let i = first_index(old(self)@.children, child_idx);
                    &&& 0 <= i < old(self)@.children.len()
                    &&& cdata == old(self)@.children[i].1
                    &&& final(self)@ == (NodeView { children: old(self)@.children.remove(i), ..old(self)@ })
                },
                Err(e) => {
                    &&& first_index(old(self)@.children, child_idx) == -1
                    &&& count_of(old(self)@.children, child_idx) == 0
                    &&& e == Error::ChildNotFound { node_idx: old(self)@.idx, child_idx }
                    &&& final(self)@ == old(self)@
                },
            },
    {
        match self.get_child_ordinal(child_idx) {
            Some(ordinal) => {
                let ghost before = self@;
                proof {
                    lemma_first_index_bounds(before.children, child_idx);
                    assert(ordinal as int == first_index(before.children, child_idx));
                }
                let (_, cdata) = self.children.remove(ordinal);
                assert(self@ == (NodeView { children: before.children.remove(ordinal as int), ..before }));
                Ok(cdata)
            },
            None => {
                proof {
                    lemma_first_index_bounds(self.children@, child_idx);
                }
                Err(Error::ChildNotFound { node_idx: self.idx, child_idx })
            },
        }
    }

    /// The [ordinal numeral](https://en.wikipedia.org/wiki/Ordinal_numeral)
    /// of `parent_idx` among the parents of `self`, e.g. the leftmost parent
    /// is the `zeroth` parent of `self`.
    /// Return `None` if `parent_idx` is not a member of `self.parents`.
    pub fn get_parent_ordinal(&self, parent_idx: NodeIdx) -> (r: Option<usize>)
        ensures
            is_first_position(self.parents@, parent_idx, r),
            r == if first_index(self.parents@, parent_idx) >= 0 {
                Some(first_index(self.parents@, parent_idx) as usize)
            } else {
                None
            },
    {
        let mut i: usize = 0;
        while i < self.parents.len()
            invariant
                i <= self.parents@.len(),
                forall|j: int| 0 <= j < i ==> self.parents@[j].0 != parent_idx,
            decreases self.parents@.len() - i,
        {
            if self.parents[i].0 == parent_idx {
                proof {
                    lemma_first_position_is_first_index(self.parents@, parent_idx, Some(i));
                }
                return Some(i);
            }
            i = i + 1;
        }
        proof {
            lemma_first_position_is_first_index(self.parents@, parent_idx, None);
        }
        None
    }

    /// The [ordinal numeral](https://en.wikipedia.org/wiki/Ordinal_numeral)
    /// of `child_idx` among the children of `self`, e.g. the leftmost child
    /// is the `zeroth` child of `self`.
    /// Return `None` if `child_idx` is not a member of `self.children`.
    pub fn get_child_ordinal(&self, child_idx: NodeIdx) -> (r: Option<usize>)
        ensures
            is_first_position(self.children@, child_idx, r),
            r == if first_index(self.children@, child_idx) >= 0 {
                Some(first_index(self.children@, child_idx) as usize)
            } else {
                None
            },
    {
        let mut i: usize = 0;
        while i < self.children.len()
            invariant
                i <= self.children@.len(),
                forall|j: int| 0 <= j < i ==> self.children@[j].0 != child_idx,
            decreases self.children@.len() - i,
        {
            if self.children[i].0 == child_idx {
                proof {
                    lemma_first_position_is_first_index(self.children@, child_idx, Some(i));
                }
                return Some(i);
            }
            i = i + 1;
        }
        proof {
            lemma_first_position_is_first_index(self.children@, child_idx, None);
        }
        None
    }

    /// Whether `self` has no parents.
    pub fn is_root_node(&self) -> (r: bool)
        ensures
            r == (self.parents@.len() == 0),
    {
        self.parents.is_empty()
    }

    /// Whether `self` has at least one child.
    pub fn is_branch_node(&self) -> (r: bool)
        ensures
            r == (self.children@.len() != 0),
    {
        !self.is_leaf_node()
    }

    /// Whether `self` has no children.
    pub fn is_leaf_node(&self) -> (r: bool)
        ensures
            r == (self.children@.len() == 0),
    {
        self.children.is_empty()
    }
}

impl<D, P, C> std::ops::Deref for Node<D, P, C> {
    type Target = D;

    fn deref(&self) -> (r: &D)
        ensures
            *r == self.data,
    {
        &self.data
    }
}

} // verus!
