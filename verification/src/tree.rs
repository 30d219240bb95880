//! A tree: an arena of nodes whose root is the node in slot 0, and whose
//! edges carry no data.

use vstd::prelude::*;
use crate::arena::{
    lemma_first_parent_edge, lemma_paired_walks_same_nodes, lemma_walk_agrees_same_nodes, lemma_walk_agrees_self,
    paired_walks, walk_agrees, walk_total, walk_total_until, rows_view, Arena, ArenaView,
};
use crate::error::{Error, Result};
use crate::node::{Node, NodeCount, NodeIdx};
use crate::seqs::lemma_first_index_bounds;
use vstd::std_specs::cmp::{OrdSpec, PartialEqSpec, PartialOrdSpec};
use std::cmp::Ordering;
use crate::order::{
    lemma_walk_decision_ignores_data, option_ordering_of, partial_order_of, partial_orders, partial_sound,
    sized_walk_order, to_option_ordering, to_ordering, total_order_of, total_orders, total_sound, walk_decision,
    Order, lemma_walk_decision_same_nodes, lemma_paired_walks_swap, lemma_sized_walk_order_flip, antisymmetric,
    flip_opt, one_to_one, swap_pairs,
};

verus! {

/// The abstract value of a `Tree`: its arena, whose edges carry no data.
pub type TreeView<D> = ArenaView<D, (), ()>;

/// The index of the root of every tree.
pub open spec fn root_idx() -> NodeIdx {
    NodeIdx(0)
}

/// `v` after every node of `xs`, in turn, was recycled with all the nodes
/// below it.
pub open spec fn recycle_all<D>(v: TreeView<D>, xs: Seq<NodeIdx>) -> TreeView<D>
    decreases xs.len(),
{
    if xs.len() == 0 {
        v
    } else {
        recycle_all(v, xs.drop_last()).recycle(xs.last())
    }
}

/// `vals` holds, for each node of `ord` in turn, a clone of its data.
pub open spec fn clones_of<D: Clone>(src: TreeView<D>, ord: Seq<NodeIdx>, vals: Seq<D>) -> bool {
    &&& vals.len() == ord.len()
    &&& forall|k: int|
        #![trigger vals[k]]
        0 <= k < vals.len() ==> vstd::pervasive::cloned(src.node(ord[k]).data, vals[k])
}

/// The state of the destination after copying the nodes `ord` of `src`
/// with the data `vals`, and which copy each source node got last: each
/// node is allocated and becomes the last child of `at` when it has no
/// parent, of the copy of its first parent when that parent was copied
/// before, and of no node otherwise.
pub open spec fn tree_copy_steps<D>(
    dst: TreeView<D>,
    src: TreeView<D>,
    at: NodeIdx,
    ord: Seq<NodeIdx>,
    vals: Seq<D>,
) -> (TreeView<D>, Map<NodeIdx, NodeIdx>)
    decreases ord.len(),
{
    if ord.len() == 0 {
        (dst, Map::empty())
    } else {
        let (w, m) = tree_copy_steps(dst, src, at, ord.drop_last(), vals.drop_last());
        let y = ord.last();
        let (w1, n) = w.allocate(vals.last());
        (
            match copy_parent(src, at, m, y) {
                Some(p) => w1.link(p, n, (), ()),
                None => w1,
            },
            m.insert(y, n),
        )
    }
}

/// Where the copy of `y` goes: under `at` when `y` has no parent, under
/// the copy of its first parent when `m` has one, and nowhere otherwise.
pub open spec fn copy_parent<D>(src: TreeView<D>, at: NodeIdx, m: Map<NodeIdx, NodeIdx>, y: NodeIdx) -> Option<NodeIdx> {
    let ps = src.node(y).parents;
    if ps.len() == 0 {
        Some(at)
    } else if m.contains_key(ps[0].0) {
        Some(m[ps[0].0])
    } else {
        None
    }
}

/// The invariant of the copying loop: the destination is as the steps so
/// far made it, and `map` records, slot by slot, the last copy of each
/// source node visited so far.
pub open spec fn tree_copy_ok<D>(
    now: TreeView<D>,
    map: Seq<Option<NodeIdx>>,
    a0: TreeView<D>,
    src: TreeView<D>,
    at: NodeIdx,
    done: Seq<NodeIdx>,
    vals: Seq<D>,
) -> bool {
    let (w, m) = tree_copy_steps(a0, src, at, done, vals);
    &&& now == w
    &&& w.nodes.len() >= a0.nodes.len()
    &&& forall|i: int|
        0 <= i < map.len() ==> (#[trigger] map[i] matches Some(d) ==> m.contains_key(NodeIdx(i as usize))
            && m[NodeIdx(i as usize)] == d && w.has(d))
    &&& forall|y: NodeIdx| #[trigger] m.contains_key(y) ==> y.id() < map.len() && map[y.id()] == Some(m[y])
}

/// The lockstep pre-order walk that compares `a` with `b` from their roots.
pub open spec fn tree_walk<D>(a: TreeView<D>, b: TreeView<D>) -> Seq<(NodeIdx, NodeIdx)> {
    paired_walks(a, b, seq![root_idx()], seq![root_idx()])
}

/// `a` and `b` are logically equal: garbage left aside, they have as many
/// nodes, and their lockstep pre-order walk from the roots agrees at every
/// pair of nodes.
pub open spec fn tree_logically_equal<D: PartialEq>(a: TreeView<D>, b: TreeView<D>) -> bool {
    &&& a.nodes.len() - a.garbage.len() == b.nodes.len() - b.garbage.len()
    &&& walk_agrees(a, b, tree_walk(a, b))
}

/// An arena-allocated tree.  Its root is the node in slot 0, i.e. the first
/// node that was added to it.
#[derive(Clone, Debug, Hash)]
pub struct Tree<D> {
    arena: Arena<D, (), ()>,
}

impl<D> Default for Tree<D> {
    fn default() -> (r: Self)
        ensures
            r@.nodes.len() == 0,
            r@.garbage.len() == 0,
            r.wf(),
    {
        Self::with_capacity(64)
    }
}

impl<D> std::ops::Index<NodeIdx> for Tree<D> {
    type Output = Node<D, (), ()>;

    fn index(&self, idx: NodeIdx) -> (r: &Node<D, (), ()>)
        ensures
            r@ == self@.node(idx),
    {
        self.arena.node(idx)
    }
}

impl<D> vstd::std_specs::core::IndexSpecImpl<NodeIdx> for Tree<D> {
    open spec fn index_req(&self, idx: &NodeIdx) -> bool {
        self@.has(*idx)
    }
}

impl<D> Tree<D> {
    /// The abstract value of `self`.
    pub closed spec fn view(&self) -> TreeView<D> {
        self.arena@
    }

    /// The arena of `self` is well-formed.
    pub open spec fn wf(&self) -> bool {
        self@.wf()
    }

    /// The tree kept in `arena`, as it is; its root is the node in slot 0.
    pub fn from_arena(arena: Arena<D, (), ()>) -> (r: Self)
        ensures
            r@ == arena@,
    {
        Tree { arena }
    }

    /// The arena that keeps `self`.
    pub fn into_arena(self) -> (r: Arena<D, (), ()>)
        ensures
            r@ == self@,
    {
        self.arena
    }

    /// The index of the root node.
    pub fn root_idx() -> (r: NodeIdx)
        ensures
            r == root_idx(),
    {
        NodeIdx(0)
    }

    /// An empty tree, with room for `cap` nodes before reallocation.
    pub fn with_capacity(cap: usize) -> (r: Self)
        ensures
            r@.nodes.len() == 0,
            r@.garbage.len() == 0,
            r.wf(),
    {
        Self { arena: Arena::with_capacity(cap) }
    }

    /// Whether `self` is well-formed: see `Arena::is_wf`.
    pub fn is_wf(&self) -> (r: bool)
        ensures
            r == self.wf(),
    {
        self.arena.is_wf()
    }

    /// Get the logical size, which is defined as `physical size - garbage size`
    /// i.e. the number of allocated, non-garbage nodes in `self`.
    pub fn logical_size(&self) -> (r: NodeCount)
        requires
            self@.garbage.len() <= self@.nodes.len(),
        ensures
            r.count() == self@.nodes.len() - self@.garbage.len(),
            self.wf() ==> r.count() == self@.live_slots().len(),
    {
        self.arena.logical_size()
    }

    /// Get the physical size, which is defined as the number of nodes
    /// allocated in the tree, whether they are garbage or not.
    pub fn physical_size(&self) -> (r: NodeCount)
        ensures
            r.count() == self@.nodes.len(),
    {
        self.arena.physical_size()
    }

    /// Get the garbage size i.e. the number of garbage nodes in `self`.
    pub fn garbage_size(&self) -> (r: NodeCount)
        ensures
            r.count() == self@.garbage.len(),
    {
        self.arena.garbage_size()
    }

    /// The root node.
    pub fn root_ref(&self) -> (r: &Node<D, (), ()>)
        requires
            self@.has(root_idx()),
        ensures
            r@ == self@.node(root_idx()),
    {
        self.arena.node(NodeIdx(0))
    }

    /// A mutable borrow of the node `self[node_idx]`.
    pub fn node_mut(&mut self, node_idx: NodeIdx) -> (r: &mut Node<D, (), ()>)
        requires
            old(self)@.has(node_idx),
        ensures
            (*r)@ == old(self)@.node(node_idx),
            final(self)@ == (ArenaView { nodes: old(self)@.nodes.update(node_idx.id(), (*final(r))@), ..old(self)@ }),
    {
        self.arena.node_mut(node_idx)
    }

    /// A mutable borrow of the root node.
    pub fn root_mut(&mut self) -> (r: &mut Node<D, (), ()>)
        requires
            old(self)@.has(root_idx()),
        ensures
            (*r)@ == old(self)@.node(root_idx()),
            final(self)@ == (ArenaView { nodes: old(self)@.nodes.update(0, (*final(r))@), ..old(self)@ }),
    {
        self.arena.node_mut(NodeIdx(0))
    }

    /// If there is a garbage `Node<D>`in `self`, recycle it.
    /// Otherwise, allocate a new one.  In either case the new node gets
    /// `data`, and becomes the last child of `self[parent_idx]` if a parent
    /// is given.
    pub fn add_node(&mut self, parent_idx: Option<NodeIdx>, data: D) -> (r: Result<NodeIdx>)
        requires
            old(self).wf(),
            parent_idx matches Some(p) ==> old(self)@.has(p),
        ensures
            final(self).wf(),
            ({
                let (v1, x) = old(self)@.allocate(data);
                &&& r == Ok::<NodeIdx, Error>(x)
                &&& final(self)@ == match parent_idx {
                    Some(p) => v1.link(p, x, (), ()),
                    None => v1,
                }
            }),
    {
        let ghost v0 = self@;
        let node_idx = self.arena.add_node(data);
        if let Some(parent_idx) = parent_idx {
            assert(self@.nodes.len() >= v0.nodes.len());
            self.arena.add_edge((parent_idx, node_idx), (), ());
        }
        Ok(node_idx)
    }

    /// Recycle `self[node_idx]`.  Since a node conceptually owns
    /// its children, all descendant nodes and all edges between
    /// them are removed as well.
    pub fn rm_node(&mut self, node_idx: NodeIdx) -> (r: Result<()>)
        requires
            old(self).wf(),
        ensures
            final(self).wf(),
            match r {
                Ok(()) => {
                    &&& old(self)@.has(node_idx)
                    &&& final(self)@ == old(self)@.recycle(node_idx)
                    &&& forall|k: int|
                        0 <= k < old(self)@.preorder(node_idx).len() ==> final(self)@.is_removed(
                            #[trigger] old(self)@.preorder(node_idx)[k],
                        )
                },
                Err(e) => {
                    &&& !old(self)@.has(node_idx)
                    &&& e == Error::NodeNotFound(node_idx)
                    &&& final(self)@ == old(self)@
                },
            },
    {
        self.arena.rm_node(node_idx)
    }

    /// Remove the subtree rooted in `self[root_idx]`: see `rm_node`.
    pub fn rm_subtree(&mut self, root_idx: NodeIdx) -> (r: Result<()>)
        requires
            old(self).wf(),
        ensures
            final(self).wf(),
            match r {
                Ok(()) => {
                    &&& old(self)@.has(root_idx)
                    &&& final(self)@ == old(self)@.recycle(root_idx)
                    &&& forall|k: int|
                        0 <= k < old(self)@.preorder(root_idx).len() ==> final(self)@.is_removed(
                            #[trigger] old(self)@.preorder(root_idx)[k],
                        )
                },
                Err(e) => {
                    &&& !old(self)@.has(root_idx)
                    &&& e == Error::NodeNotFound(root_idx)
                    &&& final(self)@ == old(self)@
                },
            },
    {
        self.rm_node(root_idx)
    }

    /// Remove all descendant nodes of `self[node_idx]`, but
    /// not `self[node_idx]` itself: each child that `self[node_idx]` had
    /// when called is removed in turn, with the nodes below it.
    pub fn rm_descendants_of(&mut self, node_idx: NodeIdx) -> (r: Result<()>)
        requires
            old(self).wf(),
            old(self)@.has(node_idx),
        ensures
            final(self).wf(),
            r is Ok,
            final(self)@ == recycle_all(old(self)@, old(self)@.children_of(node_idx)),
    {
        let children = self.arena.children_of(node_idx);
        let ghost v0 = self@;
        let ghost cs = children@;
        let mut i: usize = 0;
        while i < children.len()
            invariant
                v0 == old(self)@,
                v0.wf(),
                cs == children@,
                cs == v0.children_of(node_idx),
                forall|k: int| 0 <= k < cs.len() ==> v0.has(#[trigger] cs[k]),
                0 <= i <= cs.len(),
                self.wf(),
                self@.nodes.len() == v0.nodes.len(),
                self@ == recycle_all(v0, cs.take(i as int)),
            decreases cs.len() - i,
        {
            proof {
                assert(cs.take(i + 1).drop_last() =~= cs.take(i as int));
                assert(v0.has(cs[i as int]));
            }
            match self.rm_subtree(children[i]) {
                Ok(()) => {},
                Err(e) => {
                    assert(false);
                    return Err(e);
                },
            }
            proof {
                assert(self@.nodes.len() == v0.nodes.len()) by {
                    assert(self@.nodes.len() == recycle_all(v0, cs.take(i as int)).recycle(cs[i as int]).nodes.len());
                    lemma_recycle_len(recycle_all(v0, cs.take(i as int)), cs[i as int]);
                }
            }
            i = i + 1;
        }
        assert(cs.take(i as int) =~= cs);
        Ok(())
    }

    /// Make `self[subroot_idx]` the last child node of `self[parent_idx]`,
    /// detaching it from its (first) parent beforehand if it has one.
    pub fn move_subtree(&mut self, subroot_idx: NodeIdx, parent_idx: NodeIdx) -> (r: Result<()>)
        requires
            old(self).wf(),
            old(self)@.has(subroot_idx),
            old(self)@.has(parent_idx),
        ensures
            final(self).wf(),
            r is Ok,
            final(self)@ == old(self)@.detach_first_parent(subroot_idx).link(parent_idx, subroot_idx, (), ()),
    {
        let ghost a0 = self@;
        if let Some(old_parent_idx) = self.parent_of(subroot_idx) {
            proof {
                lemma_first_parent_edge(a0, subroot_idx);
            }
            match self.arena.rm_edge(old_parent_idx, subroot_idx) {
                Ok(_) => {},
                Err(e) => {
                    assert(false);
                    return Err(e);
                },
            }
        }
        assert(self@ == a0.detach_first_parent(subroot_idx));
        self.arena.add_edge((parent_idx, subroot_idx), (), ());
        Ok(())
    }

    /// Replace the subtree rooted @ `self[target_idx]` with the subtree
    /// rooted @ `self[subroot_idx]`.  This means that `self[target_idx]`
    /// is removed from `self` and `self[subroot_idx]` takes its place.
    pub fn replace_subtree(&mut self, target_idx: NodeIdx, subroot_idx: NodeIdx) -> (r: Result<()>)
        requires
            old(self).wf(),
            old(self)@.has(target_idx),
            old(self)@.has(subroot_idx),
        ensures
            final(self).wf(),
            r is Ok,
            final(self)@ == old(self)@.detach_first_parent(subroot_idx).take_place_of(
                target_idx,
                subroot_idx,
                (),
                (),
            ).recycle(target_idx),
    {
        let ghost a0 = self@;
        if let Some(parent_idx) = self.parent_of(subroot_idx) {
            proof {
                lemma_first_parent_edge(a0, subroot_idx);
            }
            match self.arena.rm_edge(parent_idx, subroot_idx) {
                Ok(_) => {},
                Err(e) => {
                    assert(false);
                    return Err(e);
                },
            }
        }
        let ghost a1 = self@;
        assert(a1 == a0.detach_first_parent(subroot_idx));
        if let Some(parent_idx) = self.parent_of(target_idx) {
            proof {
                lemma_first_parent_edge(a1, target_idx);
                lemma_first_index_bounds(a1.node(parent_idx).children, target_idx);
            }
            let pos = self.arena.node(parent_idx).get_child_ordinal(target_idx);
            match self.arena.rm_edge(parent_idx, target_idx) {
                Ok(_) => {},
                Err(e) => {
                    assert(false);
                    return Err(e);
                },
            }
            self.arena.insert_edge((parent_idx, (), None), (subroot_idx, (), pos));
        }
        assert(self@ == a1.take_place_of(target_idx, subroot_idx, (), ()));
        match self.rm_subtree(target_idx) {
            Ok(()) => {},
            Err(e) => {
                assert(false);
                return Err(e);
            },
        }
        Ok(())
    }

    /// The first parent of `self[node_idx]`, if it has one.
    pub fn parent_of(&self, node_idx: NodeIdx) -> (r: Option<NodeIdx>)
        requires
            self@.has(node_idx),
        ensures
            r == if self@.node(node_idx).parents.len() > 0 {
                Some(self@.node(node_idx).parents[0].0)
            } else {
                None
            },
    {
        let node = self.arena.node(node_idx);
        if node.parents.len() > 0 {
            Some(node.parents[0].0)
        } else {
            None
        }
    }

    /// `self[node_idx]` and its ancestors, layer by layer upwards.
    pub fn self_or_ancestors_of(&self, node_idx: NodeIdx) -> (r: Vec<NodeIdx>)
        requires
            self.wf(),
            self@.has(node_idx),
        ensures
            r@ == self@.ancestry_of(node_idx),
    {
        self.arena.self_or_ancestors_of(node_idx)
    }

    /// The ancestors of `self[node_idx]`, layer by layer upwards.
    pub fn ancestors_of(&self, node_idx: NodeIdx) -> (r: Vec<NodeIdx>)
        requires
            self.wf(),
            self@.has(node_idx),
        ensures
            r@ == self@.ancestry_of(node_idx).filter(|y: NodeIdx| y != node_idx),
    {
        self.arena.ancestors_of(node_idx)
    }

    /// The children of the parent(s) of `self[node_idx]`, itself included.
    pub fn self_or_siblings_of(&self, node_idx: NodeIdx) -> (r: Vec<NodeIdx>)
        requires
            self.wf(),
            self@.has(node_idx),
        ensures
            r@ == self@.neighbors_of_all(self@.parents_of(node_idx), false),
    {
        self.arena.self_or_siblings_of(node_idx)
    }

    /// The children of the parent(s) of `self[node_idx]`, itself excluded.
    pub fn siblings_of(&self, node_idx: NodeIdx) -> (r: Vec<NodeIdx>)
        requires
            self.wf(),
            self@.has(node_idx),
        ensures
            r@ == self@.neighbors_of_all(self@.parents_of(node_idx), false).filter(
                |y: NodeIdx| y != node_idx,
            ),
    {
        self.arena.siblings_of(node_idx)
    }

    /// The children of `self[node_idx]`, leftmost first.
    pub fn children_of(&self, node_idx: NodeIdx) -> (r: Vec<NodeIdx>)
        requires
            self@.has(node_idx),
        ensures
            r@ == self@.children_of(node_idx),
    {
        self.arena.children_of(node_idx)
    }

    /// `self[node_idx]` and the nodes below it, in pre-order.
    pub fn self_or_descendants_of(&self, node_idx: NodeIdx) -> (r: Vec<NodeIdx>)
        requires
            self.wf(),
            self@.has(node_idx),
        ensures
            r@ == self@.preorder(node_idx),
    {
        self.arena.self_or_descendants_of(node_idx)
    }

    /// The nodes below `self[node_idx]`, in pre-order.
    pub fn descendants_of(&self, node_idx: NodeIdx) -> (r: Vec<NodeIdx>)
        requires
            self.wf(),
            self@.has(node_idx),
        ensures
            r@ == self@.preorder(node_idx).filter(|y: NodeIdx| y != node_idx),
    {
        self.arena.descendants_of(node_idx)
    }

    /// The rows in which `self` is displayed: each node, in pre-order from
    /// the root, with its number of ancestors, by which its row is indented
    /// (one `| ` each) before the node's index and data.
    pub fn outline(&self) -> (r: Vec<(usize, NodeIdx)>)
        requires
            self.wf(),
            self@.has(root_idx()),
        ensures
            rows_view(r@) == self@.outline_from(root_idx()),
    {
        self.arena.outline_from(NodeIdx(0))
    }

    /// `self[start_idx]` and the nodes below it, in depth-first pre-order.
    pub fn dfs(&self, start_idx: NodeIdx) -> (r: Vec<NodeIdx>)
        requires
            self.wf(),
            self@.has(start_idx),
        ensures
            r@ == self@.preorder(start_idx),
    {
        self.arena.dfs(start_idx)
    }

    /// `self[start_idx]` and the nodes below it, in breadth-first order.
    pub fn bfs(&self, start_idx: NodeIdx) -> (r: Vec<NodeIdx>)
        requires
            self.wf(),
            self@.has(start_idx),
        ensures
            r@ == self@.bfs_from(start_idx),
    {
        self.arena.bfs(start_idx)
    }
    /// Copy the `src` tree to `self`, making it a subtree of `self` in
    /// the process.  Specifically, `src[ROOT]` becomes a child node
    /// of `self[dst_node_idx]`, and every other node of `src` becomes a
    /// child of the copy of its first parent.
    /// Note that the `NodeIdx`s of the nodes in `src` will *NOT* be
    /// valid in `self`.
    pub fn copy_subtree(&mut self, dst_node_idx: NodeIdx, src: &Self) -> (r: Result<()>) where
        D: Clone,

        requires
            old(self).wf(),
            old(self)@.has(dst_node_idx),
            src.wf(),
            src@.has(root_idx()),
        ensures
            final(self).wf(),
            r is Ok,
            exists|vals: Seq<D>|
                #[trigger] clones_of(src@, src@.preorder(root_idx()), vals) && final(self)@ == tree_copy_steps(
                    old(self)@,
                    src@,
                    dst_node_idx,
                    src@.preorder(root_idx()),
                    vals,
                ).0,
    {
        let ghost sv = src@;
        let ghost a0 = self@;
        let order = src.dfs(NodeIdx(0));
        let ghost ord = order@;
        let n_src = src.arena.physical_size().get();
        let mut map: Vec<Option<NodeIdx>> = Vec::new();
        while map.len() < n_src
            invariant
                map@.len() <= n_src,
                forall|i: int| 0 <= i < map@.len() ==> map@[i] is None,
            decreases n_src - map@.len(),
        {
            map.push(None);
        }
        let ghost mut vals: Seq<D> = Seq::empty();
        proof {
            crate::arena::lemma_preorder_in_range(sv, root_idx());
            assert(ord.take(0) =~= Seq::<NodeIdx>::empty());
        }
        let mut k: usize = 0;
        while k < order.len()
            invariant
                sv == src@,
                sv.wf(),
                a0 == old(self)@,
                a0.wf(),
                a0.has(dst_node_idx),
                ord == order@,
                ord == sv.preorder(root_idx()),
                forall|j: int| 0 <= j < ord.len() ==> sv.has(#[trigger] ord[j]),
                0 <= k <= ord.len(),
                map@.len() == sv.nodes.len(),
                self.wf(),
                vals.len() == k,
                clones_of(sv, ord.take(k as int), vals),
                tree_copy_ok(self@, map@, a0, sv, dst_node_idx, ord.take(k as int), vals),
            decreases ord.len() - k,
        {
            let y = order[k];
            assert(sv.has(ord[k as int]));
            let ynode = src.arena.node(y);
            let ghost m = tree_copy_steps(a0, sv, dst_node_idx, ord.take(k as int), vals).1;
            let dst_parent: Option<NodeIdx> = if ynode.parents.len() == 0 {
                Some(dst_node_idx)
            } else {
                let p = ynode.parents[0].0;
                proof {
                    assert(sv.has(sv.nodes[y.id()].parents[0].0));
                    if m.contains_key(p) {
                        assert(map@[p.id()] == Some(m[p]));
                    } else {
                        assert(NodeIdx(p.id() as usize) == p);
                    }
                }
                map[p.0]
            };
            assert(dst_parent == copy_parent(sv, dst_node_idx, m, y));
            let data = ynode.data.clone();
            let ghost gd = data;
            let ghost wb = self@;
            let new_idx = match self.add_node(dst_parent, data) {
                Ok(x) => x,
                Err(e) => {
                    assert(false);
                    return Err(e);
                },
            };
            let ghost map0 = map@;
            map.set(y.0, Some(new_idx));
            proof {
                lemma_tree_copy_step(wb, self@, map0, map@, a0, sv, dst_node_idx, ord, k as int, vals, gd, new_idx);
                lemma_clones_of_step(sv, ord, k as int, vals, gd);
                vals = vals.push(gd);
            }
            k = k + 1;
        }
        assert(ord.take(k as int) =~= ord);
        Ok(())
    }

    /// Compare `self` with `other` logically: garbage nodes are left out,
    /// and the remaining nodes are compared in depth-first pre-order from
    /// the roots.  Two paired nodes must both be without parent, or both
    /// have one parent where the parent of the first was paired with the
    /// parent of the second; they must have as many children and equal data.
    pub fn logical_eq(&self, other: &Self) -> (r: bool) where
        D: PartialEq,

        requires
            self.wf(),
            other.wf(),
            self@.nodes.len() - self@.garbage.len() == other@.nodes.len() - other@.garbage.len() ==> {
                &&& self@.has(root_idx())
                &&& other@.has(root_idx())
                &&& walk_total_until(self@, other@, tree_walk(self@, other@))
            },
        ensures
            self@.nodes.len() - self@.garbage.len() != other@.nodes.len() - other@.garbage.len() ==> !r,
            <D as PartialEqSpec>::obeys_eq_spec() ==> r == tree_logically_equal(self@, other@),
    {
        proof {
            crate::arena::lemma_logical_size_counts_live(self@);
            crate::arena::lemma_logical_size_counts_live(other@);
        }
        if self.logical_size().0 != other.logical_size().0 {
            return false;
        }
        let sroots = vec![NodeIdx(0)];
        let oroots = vec![NodeIdx(0)];
        assert(sroots@ =~= seq![root_idx()]);
        assert(oroots@ =~= seq![root_idx()]);
        self.arena.walk_eq(&other.arena, &sroots, &oroots)
    }

    /// Order `self` against `other` logically by `partial_cmp`: first by
    /// logical size, then pair by pair along the lockstep pre-order walk
    /// from the roots.  The first pair that differs decides: by the indices
    /// of its parents, unless both nodes are without parent or have one
    /// parent each, paired before; then by its numbers of children; then by
    /// its data, when that is ordered one way or the other.
    pub fn logical_partial_cmp(&self, other: &Self) -> (r: Option<Ordering>) where D: PartialOrd
        requires
            self.wf(),
            other.wf(),
            self@.nodes.len() - self@.garbage.len() == other@.nodes.len() - other@.garbage.len() ==> {
                &&& self@.has(root_idx())
                &&& other@.has(root_idx())
                &&& walk_total_until(self@, other@, tree_walk(self@, other@))
            },
        ensures
            self@.nodes.len() - self@.garbage.len() < other@.nodes.len() - other@.garbage.len() ==> r == Some(
                Ordering::Less,
            ),
            self@.nodes.len() - self@.garbage.len() > other@.nodes.len() - other@.garbage.len() ==> r == Some(
                Ordering::Greater,
            ),
            partial_sound::<D>() ==> r == option_ordering_of(
                sized_walk_order(
                    self@,
                    other@,
                    tree_walk(self@, other@),
                    false,
                    partial_orders::<D>(),
                    partial_orders::<()>(),
                ),
            ),
    {
        proof {
            crate::arena::lemma_logical_size_counts_live(self@);
            crate::arena::lemma_logical_size_counts_live(other@);
        }
        let ss = self.logical_size().0;
        let os = other.logical_size().0;
        if ss < os {
            return Some(Ordering::Less);
        }
        if ss > os {
            return Some(Ordering::Greater);
        }
        let sroots = vec![NodeIdx(0)];
        let oroots = vec![NodeIdx(0)];
        assert(sroots@ =~= seq![root_idx()]);
        assert(oroots@ =~= seq![root_idx()]);
        match self.arena.walk_partial_order(&other.arena, &sroots, &oroots, false) {
            Some(d) => to_option_ordering(d),
            None => Some(Ordering::Equal),
        }
    }

    /// Order `self` against `other` logically by `cmp`, in the same way as
    /// `logical_partial_cmp`.
    pub fn logical_cmp(&self, other: &Self) -> (r: Ordering) where D: Ord
        requires
            self.wf(),
            other.wf(),
            self@.nodes.len() - self@.garbage.len() == other@.nodes.len() - other@.garbage.len() ==> {
                &&& self@.has(root_idx())
                &&& other@.has(root_idx())
                &&& walk_total_until(self@, other@, tree_walk(self@, other@))
            },
        ensures
            self@.nodes.len() - self@.garbage.len() < other@.nodes.len() - other@.garbage.len() ==> r
                == Ordering::Less,
            self@.nodes.len() - self@.garbage.len() > other@.nodes.len() - other@.garbage.len() ==> r
                == Ordering::Greater,
            total_sound::<D>() ==> Some(r) == option_ordering_of(
                sized_walk_order(self@, other@, tree_walk(self@, other@), false, total_orders::<D>(), total_orders::<()>()),
            ),
    {
        proof {
            crate::arena::lemma_logical_size_counts_live(self@);
            crate::arena::lemma_logical_size_counts_live(other@);
        }
        let ss = self.logical_size().0;
        let os = other.logical_size().0;
        if ss < os {
            return Ordering::Less;
        }
        if ss > os {
            return Ordering::Greater;
        }
        let sroots = vec![NodeIdx(0)];
        let oroots = vec![NodeIdx(0)];
        assert(sroots@ =~= seq![root_idx()]);
        assert(oroots@ =~= seq![root_idx()]);
        proof {
            crate::order::lemma_walk_total_decision(self@, other@, tree_walk(self@, other@), false);
        }
        match self.arena.walk_total_order(&other.arena, &sroots, &oroots, false) {
            Some(Some(d)) => to_ordering(d),
            _ => Ordering::Equal,
        }
    }
}

/// Recycling keeps the number of slots.
proof fn lemma_recycle_len<D, P, C>(v: ArenaView<D, P, C>, x: NodeIdx)
    ensures
        v.recycle(x).nodes.len() == v.nodes.len(),
{
}

proof fn lemma_clones_of_step<D: Clone>(src: TreeView<D>, ord: Seq<NodeIdx>, k: int, vals: Seq<D>, d: D)
    requires
        0 <= k < ord.len(),
        clones_of(src, ord.take(k), vals),
        vstd::pervasive::cloned(src.node(ord[k]).data, d),
    ensures
        clones_of(src, ord.take(k + 1), vals.push(d)),
{
    let vals2 = vals.push(d);
    assert forall|j: int| #![trigger vals2[j]] 0 <= j < vals2.len() implies vstd::pervasive::cloned(
        src.node(ord.take(k + 1)[j]).data,
        vals2[j],
    ) by {
        if j < k {
            assert(vals2[j] == vals[j]);
            assert(ord.take(k + 1)[j] == ord.take(k)[j]);
        }
    }
}

proof fn lemma_tree_copy_step<D>(
    wb: TreeView<D>,
    w2: TreeView<D>,
    map0: Seq<Option<NodeIdx>>,
    map1: Seq<Option<NodeIdx>>,
    a0: TreeView<D>,
    src: TreeView<D>,
    at: NodeIdx,
    ord: Seq<NodeIdx>,
    k: int,
    vals: Seq<D>,
    d: D,
    n: NodeIdx,
)
    requires
        0 <= k < ord.len(),
        vals.len() == k,
        ord[k].id() < map0.len(),
        map0.len() <= usize::MAX,
        wb.wf(),
        a0.has(at),
        tree_copy_ok(wb, map0, a0, src, at, ord.take(k), vals),
        ({
            let (wa, x) = wb.allocate(d);
            &&& x == n
            &&& w2 == match copy_parent(src, at, tree_copy_steps(a0, src, at, ord.take(k), vals).1, ord[k]) {
                Some(p) => wa.link(p, n, (), ()),
                None => wa,
            }
        }),
        map1 == map0.update(ord[k].id(), Some(n)),
    ensures
        tree_copy_ok(w2, map1, a0, src, at, ord.take(k + 1), vals.push(d)),
{
    let y = ord[k];
    let vals2 = vals.push(d);
    let done = ord.take(k);
    let done2 = ord.take(k + 1);
    assert(done2.drop_last() =~= done);
    assert(done2.last() == y);
    assert(vals2.drop_last() =~= vals);
    assert(vals2.last() == d);
    let m = tree_copy_steps(a0, src, at, done, vals).1;
    let (w3, m2) = tree_copy_steps(a0, src, at, done2, vals2);
    let wa = wb.allocate(d).0;
    assert(w3 == w2);
    assert(m2 == m.insert(y, n));
    if wb.garbage.len() > 0 {
        assert(wb.has(wb.garbage[0]));
        assert(wa.nodes.len() == wb.nodes.len());
    } else {
        assert(wa.nodes.len() == wb.nodes.len() + 1);
    }
    assert(wa.has(n));
    assert(w2.nodes.len() == wa.nodes.len()) by {
        match copy_parent(src, at, m, y) {
            Some(p) => {
                let ps = src.node(y).parents;
                if ps.len() > 0 {
                    assert(map0[ps[0].0.id()] == Some(m[ps[0].0]));
                    assert(NodeIdx(ps[0].0.id() as usize) == ps[0].0);
                }
                assert(wb.has(p));
                assert(w2 == wa.link(p, n, (), ()));
            },
            None => {},
        }
    }
    assert forall|i: int| 0 <= i < map1.len() implies (#[trigger] map1[i] matches Some(e) ==> m2.contains_key(
        NodeIdx(i as usize),
    ) && m2[NodeIdx(i as usize)] == e && w2.has(e)) by {
        if i == y.id() {
            assert(NodeIdx(i as usize) == y);
            assert(map1[i] == Some(n));
        } else {
            assert(map1[i] == map0[i]);
            assert(NodeIdx(i as usize) != y);
            if map0[i] is Some {
                assert(m.contains_key(NodeIdx(i as usize)));
            }
        }
    }
    assert forall|z: NodeIdx| #[trigger] m2.contains_key(z) implies z.id() < map1.len() && map1[z.id()] == Some(
        m2[z],
    ) by {
        if z != y {
            assert(m.contains_key(z));
            assert(map1[z.id()] == map0[z.id()]);
        } else {
            assert(map1[z.id()] == Some(n));
        }
    }
}

/// Removing the descendants of `x` leaves `x` without children.
pub proof fn lemma_rm_descendants_childless<D>(v: TreeView<D>, x: NodeIdx)
    requires
        v.has(x),
    ensures
        recycle_all(v, v.children_of(x)).node(x).children.len() == 0,
{
    let cs = v.children_of(x);
    lemma_recycle_all_children(v, x, cs, cs.len() as int);
    assert(cs.take(cs.len() as int) =~= cs);
    let w = recycle_all(v, cs);
    if w.node(x).children.len() > 0 {
        let e = w.node(x).children[0];
        let j = choose|j: int| 0 <= j < v.node(x).children.len() && v.node(x).children[j] == e;
        assert(cs[j] == e.0);
        assert(cs.contains(e.0));
    }
}

/// After the nodes of `cs.take(i)` were recycled in turn, every child entry
/// of `x` is one it had before, pointing outside of `cs.take(i)`.
proof fn lemma_recycle_all_children<D>(v: TreeView<D>, x: NodeIdx, cs: Seq<NodeIdx>, i: int)
    requires
        v.has(x),
        0 <= i <= cs.len(),
    ensures
        recycle_all(v, cs.take(i)).nodes.len() == v.nodes.len(),
        forall|j: int|
            0 <= j < recycle_all(v, cs.take(i)).node(x).children.len() ==> {
                let e = #[trigger] recycle_all(v, cs.take(i)).node(x).children[j];
                &&& v.node(x).children.contains(e)
                &&& !cs.take(i).contains(e.0)
            },
    decreases i,
{
    if i > 0 {
        lemma_recycle_all_children(v, x, cs, i - 1);
        let t = cs.take(i - 1);
        assert(cs.take(i).drop_last() =~= t);
        assert(cs.take(i).last() == cs[i - 1]);
        let w = recycle_all(v, t);
        let y = cs[i - 1];
        let order = w.preorder(y);
        let gone = crate::seqs::members(order);
        assert(order.len() > 0 ==> order[0] == y) by {
            reveal_with_fuel(ArenaView::dfs_from, 1);
        }
        let w2 = w.recycle(y);
        assert(w2 == recycle_all(v, cs.take(i)));
        assert(w2.node(x).children == crate::seqs::without(w.node(x).children, gone));
        assert forall|j: int| 0 <= j < w2.node(x).children.len() implies {
            let e = #[trigger] w2.node(x).children[j];
            &&& v.node(x).children.contains(e)
            &&& !cs.take(i).contains(e.0)
        } by {
            let e = w2.node(x).children[j];
            crate::seqs::lemma_without_members(w.node(x).children, gone, j);
            let k = choose|k: int| 0 <= k < w.node(x).children.len() && w.node(x).children[k] == e;
            assert(w.node(x).children[k] == e);
            if w.nodes.len() > 0 {
                assert(order.len() > 0);
                assert(gone.contains(y));
            }
            if cs.take(i).contains(e.0) {
                let m = choose|m: int| 0 <= m < cs.take(i).len() && cs.take(i)[m] == e.0;
                if m < i - 1 {
                    assert(t[m] == e.0);
                    assert(t.contains(e.0));
                }
            }
        }
    } else {
        assert(cs.take(0) =~= Seq::<NodeIdx>::empty());
        assert forall|j: int| 0 <= j < v.node(x).children.len() implies v.node(x).children.contains(
            #[trigger] v.node(x).children[j],
        ) by {}
    }
}

/// A walk along which every pair of nodes agrees decides nothing, when the
/// data order puts data that are equal by `==` on a par.
proof fn lemma_agreeing_tree_walk_undecided<D: PartialEq>(
    sv: TreeView<D>,
    ov: TreeView<D>,
    pairs: Seq<(NodeIdx, NodeIdx)>,
    dord: spec_fn(D, D) -> Option<Order>,
    pord: spec_fn((), ()) -> Option<Order>,
)
    requires
        walk_agrees(sv, ov, pairs),
        forall|x: D, y: D| #[trigger] x.eq_spec(&y) ==> dord(x, y) == Some(Order::Equal),
    ensures
        walk_decision(sv, ov, pairs, false, dord, pord) is None,
    decreases pairs.len(),
{
    if pairs.len() > 0 {
        lemma_agreeing_tree_walk_undecided(sv, ov, pairs.drop_last(), dord, pord);
        let s = pairs.last().0;
        let o = pairs.last().1;
        assert(sv.node(s).data.eq_spec(&ov.node(o).data));
    }
}

/// Logical equality is reflexive: a tree equals itself when equality of its
/// data is reflexive, no node has two parents or more, and the walk can
/// consult its correspondence at every parent.
pub proof fn lemma_tree_logically_equal_reflexive<D: PartialEq>(t: TreeView<D>)
    requires
        t.wf(),
        t.has(root_idx()),
        forall|x: NodeIdx| t.has(x) ==> #[trigger] t.node(x).parents.len() <= 1,
        forall|d: D| #[trigger] d.eq_spec(&d),
        walk_total(t, t, tree_walk(t, t)),
    ensures
        tree_logically_equal(t, t),
{
    lemma_walk_agrees_self(t, seq![root_idx()]);
}

/// A tree is ordered on a par with itself by `logical_cmp`, under the
/// conditions of `lemma_tree_logically_equal_reflexive`, when `cmp` puts
/// data that are equal by `==` on a par.
pub proof fn lemma_tree_cmp_reflexive<D: Ord>(t: TreeView<D>)
    requires
        t.wf(),
        t.has(root_idx()),
        forall|x: NodeIdx| t.has(x) ==> #[trigger] t.node(x).parents.len() <= 1,
        forall|d: D| #[trigger] d.eq_spec(&d),
        forall|x: D, y: D| #[trigger] x.eq_spec(&y) ==> x.cmp_spec(&y) == Ordering::Equal,
        walk_total(t, t, tree_walk(t, t)),
    ensures
        sized_walk_order(t, t, tree_walk(t, t), false, total_orders::<D>(), total_orders::<()>()) == Some(Order::Equal),
{
    lemma_tree_logically_equal_reflexive(t);
    lemma_equal_trees_cmp_equal(t, t);
}

/// The logical comparisons of trees leave garbage aside: which slots are
/// queued as garbage does not matter, only how many.
pub proof fn lemma_tree_comparisons_ignore_garbage<D: PartialEq>(
    a: TreeView<D>,
    a2: TreeView<D>,
    b: TreeView<D>,
    dord: spec_fn(D, D) -> Option<Order>,
    pord: spec_fn((), ()) -> Option<Order>,
)
    requires
        a2.nodes == a.nodes,
        a2.garbage.len() == a.garbage.len(),
    ensures
        tree_logically_equal(a2, b) == tree_logically_equal(a, b),
        sized_walk_order(a2, b, tree_walk(a2, b), false, dord, pord) == sized_walk_order(
            a,
            b,
            tree_walk(a, b),
            false,
            dord,
            pord,
        ),
{
    lemma_paired_walks_same_nodes(a, a2, b, seq![root_idx()], seq![root_idx()]);
    lemma_walk_decision_same_nodes(a, a2, b, tree_walk(a, b), false, dord, pord);
    lemma_walk_agrees_same_nodes(a, a2, b, tree_walk(a, b));
}

/// The logical orders of trees are antisymmetric: `b` against `a` is
/// ordered the opposite way to `a` against `b`, when the data are ordered
/// antisymmetrically and no node occurs twice on either side of the walk.
pub proof fn lemma_tree_order_antisymmetric<D>(
    a: TreeView<D>,
    b: TreeView<D>,
    dord: spec_fn(D, D) -> Option<Order>,
    pord: spec_fn((), ()) -> Option<Order>,
)
    requires
        one_to_one(tree_walk(a, b)),
        antisymmetric(dord),
        antisymmetric(pord),
    ensures
        sized_walk_order(b, a, tree_walk(b, a), false, dord, pord) == flip_opt(
            sized_walk_order(a, b, tree_walk(a, b), false, dord, pord),
        ),
{
    let r = seq![root_idx()];
    lemma_paired_walks_swap(a, b, r, r, 1);
    assert(r.take(1) =~= r);
    assert(tree_walk(b, a) == swap_pairs(tree_walk(a, b)));
    lemma_sized_walk_order_flip(a, b, tree_walk(a, b), false, dord, pord);
}

/// Logically equal trees are ordered on a par by `logical_cmp`, when `cmp`
/// puts data that are equal by `==` on a par, as `std` asks of every `Ord`
/// type.
pub proof fn lemma_equal_trees_cmp_equal<D: Ord>(a: TreeView<D>, b: TreeView<D>)
    requires
        tree_logically_equal(a, b),
        forall|x: D, y: D| #[trigger] x.eq_spec(&y) ==> x.cmp_spec(&y) == Ordering::Equal,
    ensures
        sized_walk_order(a, b, tree_walk(a, b), false, total_orders::<D>(), total_orders::<()>()) == Some(Order::Equal),
{
    assert forall|x: D, y: D| #[trigger] x.eq_spec(&y) implies total_orders::<D>()(x, y) == Some(Order::Equal) by {
        assert(x.cmp_spec(&y) == Ordering::Equal);
        assert(total_order_of(x, y) == Order::Equal);
    }
    lemma_agreeing_tree_walk_undecided(a, b, tree_walk(a, b), total_orders::<D>(), total_orders::<()>());
}

/// Logically equal trees are ordered on a par by `logical_partial_cmp`,
/// when `partial_cmp` puts data that are equal by `==` on a par, as `std`
/// asks of every `PartialOrd` type.
pub proof fn lemma_equal_trees_partial_cmp_equal<D: PartialOrd>(a: TreeView<D>, b: TreeView<D>)
    requires
        tree_logically_equal(a, b),
        forall|x: D, y: D| #[trigger] x.eq_spec(&y) ==> x.partial_cmp_spec(&y) == Some(Ordering::Equal),
    ensures
        sized_walk_order(a, b, tree_walk(a, b), false, partial_orders::<D>(), partial_orders::<()>())
            == Some(Order::Equal),
{
    assert forall|x: D, y: D| #[trigger] x.eq_spec(&y) implies partial_orders::<D>()(x, y) == Some(Order::Equal) by {
        assert(x.partial_cmp_spec(&y) == Some(Ordering::Equal));
        assert(partial_order_of(x, y) == Some(Order::Equal));
    }
    lemma_agreeing_tree_walk_undecided(a, b, tree_walk(a, b), partial_orders::<D>(), partial_orders::<()>());
}

/// `logical_partial_cmp` orders two trees as `logical_cmp` does, when
/// `partial_cmp` agrees with `cmp` on the data, as `std` asks of every
/// `Ord` type.
pub proof fn lemma_tree_partial_cmp_is_cmp<D: Ord>(a: TreeView<D>, b: TreeView<D>)
    requires
        forall|x: D, y: D| #[trigger] x.partial_cmp_spec(&y) == Some(x.cmp_spec(&y)),
    ensures
        sized_walk_order(a, b, tree_walk(a, b), false, partial_orders::<D>(), partial_orders::<()>())
            == sized_walk_order(a, b, tree_walk(a, b), false, total_orders::<D>(), total_orders::<()>()),
{
    assert forall|x: D, y: D| #[trigger] partial_orders::<D>()(x, y) == total_orders::<D>()(x, y) by {
        assert(x.partial_cmp_spec(&y) == Some(x.cmp_spec(&y)));
    }
    assert(partial_orders::<D>() =~= total_orders::<D>());
    lemma_walk_decision_ignores_data(
        a,
        b,
        tree_walk(a, b),
        total_orders::<D>(),
        partial_orders::<()>(),
        total_orders::<()>(),
    );
}

} // verus!
