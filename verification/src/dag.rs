//! A directed acyclic graph kept in an arena: nodes refer to each other by
//! slot, each node records its parents and children without repetition, and
//! the nodes without parents are registered as roots.

use vstd::prelude::*;
use std::collections::VecDeque;
use crate::arena::{
    is_down_path, lemma_bfs_reaches, lemma_preorder_in_range, lemma_queue_count, reaches, unqueued, without_idx, ArenaView,
};
use crate::error::{Error, Result};
use crate::forest::is_default;
use crate::node::{NodeCount, NodeIdx, NodeView};
use crate::seqs::{enqueue_one, lemma_enqueue_one};

verus! {

/// The abstract value of a DAG node.
#[verifier::ext_equal]
pub ghost struct DagNodeView<D> {
    pub idx: NodeIdx,
    pub layer: usize,
    pub parents: Seq<NodeIdx>,
    pub children: Seq<NodeIdx>,
    pub data: D,
}

/// The abstract value of an `ArenaDag`: its roots, its nodes slot by slot,
/// and the queue of garbage slots that are recycled first.
#[verifier::ext_equal]
pub ghost struct DagView<D> {
    pub roots: Seq<NodeIdx>,
    pub nodes: Seq<DagNodeView<D>>,
    pub garbage: Seq<NodeIdx>,
}

/// The entries of `xs`, each with no data.
pub open spec fn unit_edges(xs: Seq<NodeIdx>) -> Seq<(NodeIdx, ())> {
    xs.map_values(|x: NodeIdx| (x, ()))
}

/// `s` extended by each entry of `xs` that it does not hold yet, in order.
pub open spec fn add_unique(s: Seq<NodeIdx>, xs: Seq<NodeIdx>) -> Seq<NodeIdx>
    decreases xs.len(),
{
    if xs.len() == 0 {
        s
    } else {
        let t = add_unique(s, xs.drop_last());
        if t.contains(xs.last()) {
            t
        } else {
            t.push(xs.last())
        }
    }
}

/// `s` without the entries that equal an entry of `xs`.
pub open spec fn strip(s: Seq<NodeIdx>, xs: Seq<NodeIdx>) -> Seq<NodeIdx>
    decreases xs.len(),
{
    if xs.len() == 0 {
        s
    } else {
        strip(s, xs.drop_last()).filter(|y: NodeIdx| y != xs.last())
    }
}

/// The leftmost position of `x` in `s`, if `x` occurs in it.
pub open spec fn is_ordinal(s: Seq<NodeIdx>, x: NodeIdx, r: Option<usize>) -> bool {
    match r {
        Some(i) => i < s.len() && s[i as int] == x && forall|j: int| 0 <= j < i ==> s[j] != x,
        None => !s.contains(x),
    }
}

impl<D> DagView<D> {
    /// `x` designates an allocated slot.
    pub open spec fn has(self, x: NodeIdx) -> bool {
        x.id() < self.nodes.len()
    }

    /// The node in slot `x`.
    pub open spec fn node(self, x: NodeIdx) -> DagNodeView<D> {
        self.nodes[x.id()]
    }

    /// The arena of the same shape: the same nodes, with edges that carry
    /// no data.
    pub open spec fn shape(self) -> ArenaView<D, (), ()> {
        ArenaView {
            nodes: self.nodes.map_values(
                |n: DagNodeView<D>|
                    NodeView {
                        idx: n.idx,
                        parents: unit_edges(n.parents),
                        children: unit_edges(n.children),
                        data: n.data,
                    },
            ),
            garbage: self.garbage,
        }
    }

    /// Every parent and child of `n` is an allocated slot of `self`.
    pub open spec fn in_range(self, n: DagNodeView<D>) -> bool {
        &&& forall|k: int| 0 <= k < n.children.len() ==> self.has(#[trigger] n.children[k])
        &&& forall|k: int| 0 <= k < n.parents.len() ==> self.has(#[trigger] n.parents[k])
    }

    /// Every edge, root and garbage entry points at an allocated slot, no
    /// slot is queued twice as garbage, and the slots can be counted in a
    /// `usize`.
    pub open spec fn wf(self) -> bool {
        &&& self.nodes.len() <= usize::MAX
        &&& forall|i: int| 0 <= i < self.nodes.len() ==> self.in_range(#[trigger] self.nodes[i])
        &&& forall|k: int| 0 <= k < self.garbage.len() ==> self.has(#[trigger] self.garbage[k])
        &&& self.garbage.no_duplicates()
        &&& forall|k: int| 0 <= k < self.roots.len() ==> self.has(#[trigger] self.roots[k])
    }

    /// `self` with the node in slot `x` replaced by `n`.
    pub open spec fn with_node(self, x: NodeIdx, n: DagNodeView<D>) -> Self {
        DagView { nodes: self.nodes.update(x.id(), n), ..self }
    }

    /// The nodes of `self` in depth-first pre-order from `x`.
    pub open spec fn preorder(self, x: NodeIdx) -> Seq<NodeIdx> {
        self.shape().preorder(x)
    }

    /// The nodes of `self` in breadth-first order from `x`.
    pub open spec fn bfs_from(self, x: NodeIdx) -> Seq<NodeIdx> {
        self.shape().bfs_from(x)
    }
}

/// The shape of a well-formed DAG has its edges in range, and lists the
/// parents and children of each node in the same order.
pub proof fn lemma_shape<D>(v: DagView<D>)
    requires
        v.wf(),
    ensures
        v.shape().linked(),
        v.shape().nodes.len() == v.nodes.len(),
        forall|x: NodeIdx| v.has(x) ==> #[trigger] v.shape().children_of(x) == v.node(x).children,
        forall|x: NodeIdx| v.has(x) ==> #[trigger] v.shape().parents_of(x) == v.node(x).parents,
{
    let a = v.shape();
    assert forall|i: int, k: int|
        0 <= i < a.nodes.len() && 0 <= k < a.nodes[i].children.len() implies a.has(
            #[trigger] a.nodes[i].children[k].0,
        ) by {
        assert(v.in_range(v.nodes[i]));
        assert(a.nodes[i].children[k].0 == v.nodes[i].children[k]);
    }
    assert forall|i: int, k: int|
        0 <= i < a.nodes.len() && 0 <= k < a.nodes[i].parents.len() implies a.has(
            #[trigger] a.nodes[i].parents[k].0,
        ) by {
        assert(v.in_range(v.nodes[i]));
        assert(a.nodes[i].parents[k].0 == v.nodes[i].parents[k]);
    }
    assert forall|x: NodeIdx| v.has(x) implies #[trigger] a.children_of(x) == v.node(x).children by {
        assert(a.children_of(x) =~= v.node(x).children);
    }
    assert forall|x: NodeIdx| v.has(x) implies #[trigger] a.parents_of(x) == v.node(x).parents by {
        assert(a.parents_of(x) =~= v.node(x).parents);
    }
}

/// A marker that only this module can build, so that nodes are made here.
#[derive(Clone, Copy, Debug, PartialEq, Eq, PartialOrd, Ord, Hash)]
struct Sealed;

/// A node of an `ArenaDag`.
#[derive(Clone, Debug, PartialEq, Eq, PartialOrd, Ord, Hash)]
pub struct Node<D> {
    pub idx: NodeIdx,
    pub layer: usize,
    pub parents: Vec<NodeIdx>,
    pub children: Vec<NodeIdx>,
    pub data: D,
    _prevent_direct_instantiation_: Sealed,
}

impl<D> std::ops::Deref for Node<D> {
    type Target = D;

    fn deref(&self) -> (r: &D)
        ensures
            *r == self@.data,
    {
        &self.data
    }
}

/// The entries of `s` other than `x`, in their order.
fn filtered(s: &Vec<NodeIdx>, x: NodeIdx) -> (r: Vec<NodeIdx>)
    ensures
        r@ == s@.filter(|y: NodeIdx| y != x),
{
    without_idx(s, x)
}

/// Whether `s` holds `x`.
fn holds(s: &Vec<NodeIdx>, x: NodeIdx) -> (r: bool)
    ensures
        r == s@.contains(x),
{
    let mut i: usize = 0;
    while i < s.len()
        invariant
            0 <= i <= s@.len(),
            forall|j: int| 0 <= j < i ==> s@[j] != x,
        decreases s@.len() - i,
    {
        if s[i] == x {
            return true;
        }
        i = i + 1;
    }
    false
}

/// The leftmost position of `x` in `s`.
fn ordinal(s: &Vec<NodeIdx>, x: NodeIdx) -> (r: Option<usize>)
    ensures
        is_ordinal(s@, x, r),
{
    let mut i: usize = 0;
    while i < s.len()
        invariant
            0 <= i <= s@.len(),
            forall|j: int| 0 <= j < i ==> s@[j] != x,
        decreases s@.len() - i,
    {
        if s[i] == x {
            return Some(i);
        }
        i = i + 1;
    }
    None
}

/// `s` extended by each entry of `xs` that it does not hold yet.
fn push_unique(s: &mut Vec<NodeIdx>, xs: &[NodeIdx])
    ensures
        final(s)@ == add_unique(old(s)@, xs@),
{
    let ghost s0 = s@;
    let mut i: usize = 0;
    while i < xs.len()
        invariant
            0 <= i <= xs@.len(),
            s@ == add_unique(s0, xs@.take(i as int)),
            s0 == old(s)@,
        decreases xs@.len() - i,
    {
        proof {
            assert(xs@.take(i + 1).drop_last() =~= xs@.take(i as int));
            assert(xs@.take(i + 1).last() == xs@[i as int]);
        }
        if !holds(s, xs[i]) {
            s.push(xs[i]);
        }
        i = i + 1;
    }
    assert(xs@.take(i as int) =~= xs@);
}

/// `s` without the entries that equal an entry of `xs`.
fn strip_all(s: &mut Vec<NodeIdx>, xs: &[NodeIdx])
    ensures
        final(s)@ == strip(old(s)@, xs@),
{
    let ghost s0 = s@;
    let mut i: usize = 0;
    while i < xs.len()
        invariant
            0 <= i <= xs@.len(),
            s@ == strip(s0, xs@.take(i as int)),
            s0 == old(s)@,
        decreases xs@.len() - i,
    {
        let ghost x = xs@[i as int];
        proof {
            assert(xs@.take(i + 1).drop_last() =~= xs@.take(i as int));
            assert(xs@.take(i + 1).last() == x);
            assert(strip(s0, xs@.take(i + 1)) == strip(s0, xs@.take(i as int)).filter(|y: NodeIdx| y != x)) by {
                assert((|y: NodeIdx| y != xs@.take(i + 1).last()) =~= (|y: NodeIdx| y != x));
            }
        }
        if holds(s, xs[i]) {
            *s = filtered(s, xs[i]);
        } else {
            proof {
                let x = xs@[i as int];
                assert forall|j: int| 0 <= j < s@.len() implies s@[j] != x by {
                    if s@[j] == x {
                        assert(s@.contains(x));
                    }
                }
                lemma_filter_all(s@, |y: NodeIdx| y != x);
            }
        }
        i = i + 1;
    }
    assert(xs@.take(i as int) =~= xs@);
}

/// Filtering by a predicate that holds of every entry keeps a sequence.
pub proof fn lemma_filter_all<A>(s: Seq<A>, p: spec_fn(A) -> bool)
    requires
        forall|j: int| 0 <= j < s.len() ==> p(s[j]),
    ensures
        s.filter(p) == s,
    decreases s.len(),
{
    reveal(Seq::filter);
    if s.len() > 0 {
        lemma_filter_all(s.drop_last(), p);
        assert(s.drop_last().push(s.last()) =~= s);
    } else {
        assert(s.filter(p) =~= s);
    }
}

impl<D> Node<D> {
    /// The abstract value of `self`.
    pub closed spec fn view(&self) -> DagNodeView<D> {
        DagNodeView {
            idx: self.idx,
            layer: self.layer,
            parents: self.parents@,
            children: self.children@,
            data: self.data,
        }
    }

    /// A node in slot `node_idx`, without edges, in layer 0.
    fn new(node_idx: NodeIdx, data: D) -> (r: Self)
        ensures
            r@ == (DagNodeView::<D> {
                idx: node_idx,
                layer: 0,
                parents: Seq::empty(),
                children: Seq::empty(),
                data,
            }),
    {
        Node {
            idx: node_idx,
            layer: 0,
            parents: Vec::with_capacity(2),
            children: Vec::with_capacity(4),
            data,
            _prevent_direct_instantiation_: Sealed,
        }
    }

    /// Reset `self` to layer 0, without edges, with default data.
    fn clear(&mut self) where D: Default
        ensures
            final(self)@.idx == old(self)@.idx,
            final(self)@.layer == 0,
            final(self)@.parents == Seq::<NodeIdx>::empty(),
            final(self)@.children == Seq::<NodeIdx>::empty(),
            is_default(final(self)@.data),
    {
        self.layer = 0;
        self.parents.clear();
        self.children.clear();
        self.data = D::default();
    }

    /// `self` has no parent.
    pub fn is_root_node(&self) -> (r: bool)
        ensures
            r == (self@.parents.len() == 0),
    {
        self.parents.len() == 0
    }

    /// `self` has no child.
    pub fn is_leaf_node(&self) -> (r: bool)
        ensures
            r == (self@.children.len() == 0),
    {
        self.children.len() == 0
    }

    /// `self` has a child.
    pub fn is_branch_node(&self) -> (r: bool)
        ensures
            r == (self@.children.len() > 0),
    {
        !self.is_leaf_node()
    }

    /// Register each of `parent_idxs` that is not a parent yet as the last
    /// parent of `self`.
    fn add_parents(&mut self, parent_idxs: &[NodeIdx])
        ensures
            final(self)@ == (DagNodeView { parents: add_unique(old(self)@.parents, parent_idxs@), ..old(self)@ }),
    {
        push_unique(&mut self.parents, parent_idxs);
    }

    /// Remove from `self.parents` any index in `parent_idxs`.
    /// If `self.parents` doesn't contain any index in
    /// `parent_idx`, this fn Has no effect.
    fn remove_parents(&mut self, parent_idxs: &[NodeIdx])
        ensures
            final(self)@ == (DagNodeView { parents: strip(old(self)@.parents, parent_idxs@), ..old(self)@ }),
    {
        strip_all(&mut self.parents, parent_idxs);
    }

    /// Register each of `child_idxs` that is not a child yet as the last
    /// child of `self`.
    fn add_children(&mut self, child_idxs: &[NodeIdx])
        ensures
            final(self)@ == (DagNodeView { children: add_unique(old(self)@.children, child_idxs@), ..old(self)@ }),
    {
        push_unique(&mut self.children, child_idxs);
    }

    /// Remove from `self.children` any index in `child_idxs`.
    /// If `self.children` doesn't contain any index in
    /// `child_idx`, this fn Has no effect.
    pub fn remove_children(&mut self, child_idxs: &[NodeIdx])
        ensures
            final(self)@ == (DagNodeView { children: strip(old(self)@.children, child_idxs@), ..old(self)@ }),
            final(self)@.children == old(self)@.children.filter(|y: NodeIdx| !child_idxs@.contains(y)),
            (forall|k: int| 0 <= k < old(self)@.children.len() ==> !child_idxs@.contains(#[trigger] old(self)@.children[k]))
                ==> final(self)@ == old(self)@,
    {
        let ghost c0 = self@.children;
        strip_all(&mut self.children, child_idxs);
        proof {
            lemma_strip_is_filter(c0, child_idxs@);
            if forall|k: int| 0 <= k < c0.len() ==> !child_idxs@.contains(#[trigger] c0[k]) {
                lemma_filter_all(c0, |y: NodeIdx| !child_idxs@.contains(y));
                assert(self@ =~= old(self)@);
            }
        }
    }

    /// Assuming that `parent_idx` is a member of `self.parents`, return the
    /// ordinal numeral for `parent_idx` e.g. the leftmost parent is the
    /// `zeroth` parent of `self`.
    /// Return `None` if `parent_idx` is not a member of `self.parents`.
    pub fn parent_ordinal(&self, parent_idx: NodeIdx) -> (r: Option<usize>)
        ensures
            is_ordinal(self@.parents, parent_idx, r),
    {
        ordinal(&self.parents, parent_idx)
    }

    /// Assuming that `child_idx` is a member of `self.children`, return the
    /// ordinal numeral for `child_idx` e.g. the leftmost child is the
    /// `zeroth` child of `self`.
    /// Return `None` if `child_idx` is not a member of `self.children`.
    pub fn child_ordinal(&self, child_idx: NodeIdx) -> (r: Option<usize>)
        ensures
            is_ordinal(self@.children, child_idx, r),
    {
        ordinal(&self.children, child_idx)
    }
}

impl<D> DagView<D> {
    /// The number of slots after a node is allocated.
    pub open spec fn slots_after_add(self) -> nat {
        if self.garbage.len() > 0 {
            self.nodes.len()
        } else {
            self.nodes.len() + 1
        }
    }

    /// A node is allocated for `data`: the first garbage slot is taken as it
    /// is, or else a new slot is appended that holds `data`.
    pub open spec fn take_slot(self, data: D) -> (Self, NodeIdx) {
        if self.garbage.len() > 0 {
            (DagView { garbage: self.garbage.drop_first(), ..self }, self.garbage[0])
        } else {
            let x = NodeIdx(self.nodes.len() as usize);
            (
                DagView {
                    nodes: self.nodes.push(
                        DagNodeView { idx: x, layer: 0, parents: Seq::empty(), children: Seq::empty(), data },
                    ),
                    ..self
                },
                x,
            )
        }
    }

    /// `x` becomes a child of each node of `ps` that does not have it yet,
    /// one after the other.
    pub open spec fn adopt_by(self, ps: Seq<NodeIdx>, x: NodeIdx) -> Self
        decreases ps.len(),
    {
        if ps.len() == 0 {
            self
        } else {
            let w = self.adopt_by(ps.drop_last(), x);
            let p = ps.last();
            w.with_node(p, DagNodeView { children: add_unique(w.node(p).children, seq![x]), ..w.node(p) })
        }
    }

    /// One more than the deepest layer of the nodes of `ps`, or 0 when
    /// `ps` is empty.
    pub open spec fn layer_below(self, ps: Seq<NodeIdx>) -> int
        decreases ps.len(),
    {
        if ps.len() == 0 {
            0
        } else {
            let a = self.layer_below(ps.drop_last());
            let b = self.node(ps.last()).layer + 1;
            if a >= b {
                a
            } else {
                b
            }
        }
    }

    /// The parents that the node allocated for a new node ends up with.
    pub open spec fn new_parents(self, parent_idxs: Seq<NodeIdx>) -> Seq<NodeIdx> {
        let (v1, x) = self.take_slot(arbitrary());
        add_unique(v1.node(x).parents, parent_idxs)
    }

    /// `self` after `add_node(parent_idxs)` with default data `dv`, and the
    /// new node's index.
    pub open spec fn added(self, dv: D, parent_idxs: Seq<NodeIdx>) -> (Self, NodeIdx) {
        let (v1, x) = self.take_slot(dv);
        let ps = add_unique(v1.node(x).parents, parent_idxs);
        let v2 = v1.with_node(x, DagNodeView { parents: ps, ..v1.node(x) });
        let v3 = if ps.len() == 0 {
            DagView { roots: v2.roots.push(x), ..v2 }
        } else {
            v2
        };
        let v4 = v3.adopt_by(ps, x);
        (v4.with_node(x, DagNodeView { layer: v4.layer_below(ps) as usize, ..v4.node(x) }), x)
    }

    /// The slots of `parent_idxs` are allocated once the new node is, and
    /// every parent of the new node is in a layer that one more layer can
    /// follow.
    pub open spec fn can_add(self, parent_idxs: Seq<NodeIdx>) -> bool {
        let (v1, x) = self.take_slot(arbitrary());
        &&& forall|k: int| 0 <= k < parent_idxs.len() ==> (#[trigger] parent_idxs[k]).id() < self.slots_after_add()
        &&& forall|k: int|
            0 <= k < self.new_parents(parent_idxs).len() ==> v1.node(
                #[trigger] self.new_parents(parent_idxs)[k],
            ).layer < usize::MAX
    }

    /// `self` after `x` was taken off the children of each node of `ps`,
    /// one after the other.
    pub open spec fn disown_by(self, ps: Seq<NodeIdx>, x: NodeIdx) -> Self
        decreases ps.len(),
    {
        if ps.len() == 0 {
            self
        } else {
            let w = self.disown_by(ps.drop_last(), x);
            let p = ps.last();
            w.with_node(p, DagNodeView { children: strip(w.node(p).children, seq![x]), ..w.node(p) })
        }
    }

    /// `self` after the leaf `x` was recycled with default data `dv`: it
    /// leaves the children of its parents, loses its parents and layer,
    /// and is queued as garbage, unless it is queued already.
    pub open spec fn recycled(self, x: NodeIdx, dv: D) -> Self {
        let w = self.disown_by(self.node(x).parents, x);
        let w2 = w.with_node(
            x,
            DagNodeView { layer: 0, parents: Seq::empty(), children: Seq::empty(), data: dv, ..w.node(x) },
        );
        DagView { garbage: enqueue_one(w2.garbage, x), ..w2 }
    }

    /// `self` after the nodes of `xs` were recycled one after the other,
    /// the `i`-th with the default data `dvs[i]`, up to the first node that
    /// is not a leaf by then; that node, if any, and how many nodes were
    /// recycled.
    pub open spec fn recycle_steps(self, xs: Seq<NodeIdx>, dvs: Seq<D>) -> (Self, Option<NodeIdx>, nat)
        decreases xs.len(),
    {
        if xs.len() == 0 {
            (self, None, 0)
        } else {
            let (w, failed, done) = self.recycle_steps(xs.drop_last(), dvs);
            if failed is Some {
                (w, failed, done)
            } else if w.node(xs.last()).children.len() > 0 {
                (w, Some(xs.last()), done)
            } else {
                (w.recycled(xs.last(), dvs[xs.len() - 1]), None, done + 1)
            }
        }
    }

    /// The first node of `xs` that has a parent, if any.
    pub open spec fn first_non_root(self, xs: Seq<NodeIdx>) -> Option<NodeIdx>
        decreases xs.len(),
    {
        if xs.len() == 0 {
            None
        } else if self.node(xs[0]).parents.len() > 0 {
            Some(xs[0])
        } else {
            self.first_non_root(xs.drop_first())
        }
    }

    /// `self` after each node of `cs`, in turn, became a child of `p` and
    /// `p` a parent of it, where they were not yet.
    pub open spec fn merged(self, p: NodeIdx, cs: Seq<NodeIdx>) -> Self
        decreases cs.len(),
    {
        if cs.len() == 0 {
            self
        } else {
            let w = self.merged(p, cs.drop_last());
            let c = cs.last();
            let w1 = w.with_node(p, DagNodeView { children: add_unique(w.node(p).children, seq![c]), ..w.node(p) });
            w1.with_node(c, DagNodeView { parents: add_unique(w1.node(c).parents, seq![p]), ..w1.node(c) })
        }
    }
}

/// `p` is a cycle of `v`: a path of at least one edge, along child edges
/// between allocated slots, that ends where it starts.
pub open spec fn is_cycle<D>(v: DagView<D>, p: Seq<NodeIdx>) -> bool {
    &&& p.len() >= 2
    &&& p[0] == p.last()
    &&& forall|i: int| 0 <= i < p.len() ==> v.has(#[trigger] p[i])
    &&& forall|i: int| 0 <= i < p.len() - 1 ==> v.node(#[trigger] p[i]).children.contains(p[i + 1])
}

/// `p` is a path of `v` along child edges: allocated nodes, each a child of
/// the one before it.
pub open spec fn is_path<D>(v: DagView<D>, p: Seq<NodeIdx>) -> bool {
    &&& p.len() >= 1
    &&& forall|i: int| 0 <= i < p.len() ==> v.has(#[trigger] p[i])
    &&& forall|i: int| 0 <= i < p.len() - 1 ==> v.node(#[trigger] p[i]).children.contains(p[i + 1])
}

/// Some path of `v` leads from `x` to `y` (a node reaches itself).
pub open spec fn dag_reaches<D>(v: DagView<D>, x: NodeIdx, y: NodeIdx) -> bool {
    exists|p: Seq<NodeIdx>| #[trigger] is_path(v, p) && p[0] == x && p.last() == y
}

/// `y` is in the breadth-first order from `x` exactly when a path of `v`
/// leads from `x` to `y`.
pub proof fn lemma_bfs_paths<D>(v: DagView<D>, x: NodeIdx, y: NodeIdx)
    requires
        v.wf(),
        v.has(x),
    ensures
        v.bfs_from(x).contains(y) <==> dag_reaches(v, x, y),
{
    let a = v.shape();
    lemma_shape(v);
    lemma_bfs_reaches(a, x, y);
    assert forall|p: Seq<NodeIdx>| #[trigger] is_path(v, p) <==> is_down_path(a, p) by {
        if is_path(v, p) {
            assert forall|i: int| 0 <= i < p.len() - 1 implies a.children_of(#[trigger] p[i]).contains(p[i + 1]) by {
                assert(v.has(p[i]));
                assert(v.node(p[i]).children.contains(p[i + 1]));
            }
        }
        if is_down_path(a, p) {
            assert forall|i: int| 0 <= i < p.len() - 1 implies v.node(#[trigger] p[i]).children.contains(p[i + 1]) by {
                assert(a.has(p[i]));
                assert(a.children_of(p[i]).contains(p[i + 1]));
            }
        }
    }
    if reaches(a, x, y) {
        let p = choose|p: Seq<NodeIdx>| #[trigger] is_down_path(a, p) && p[0] == x && p.last() == y;
        assert(is_path(v, p));
    }
    if dag_reaches(v, x, y) {
        let p = choose|p: Seq<NodeIdx>| #[trigger] is_path(v, p) && p[0] == x && p.last() == y;
        assert(is_down_path(a, p));
    }
}

/// `v` has a cycle.
pub open spec fn has_cycle<D>(v: DagView<D>) -> bool {
    exists|p: Seq<NodeIdx>| #[trigger] is_cycle(v, p)
}

/// How many entries of `s` are `true`.
pub open spec fn count_true(s: Seq<bool>) -> nat
    decreases s.len(),
{
    if s.len() == 0 {
        0
    } else {
        count_true(s.drop_last()) + if s.last() {
            1nat
        } else {
            0nat
        }
    }
}

/// Setting a `false` entry to `true` counts one more; the count is at most
/// the length, and less when some entry is `false`.
proof fn lemma_count_true(s: Seq<bool>, i: int)
    requires
        0 <= i < s.len(),
    ensures
        count_true(s) <= s.len(),
        !s[i] ==> count_true(s) < s.len(),
        !s[i] ==> count_true(s.update(i, true)) == count_true(s) + 1,
    decreases s.len(),
{
    let t = s.drop_last();
    if i < s.len() - 1 {
        lemma_count_true(t, i);
        assert(s.update(i, true).drop_last() =~= t.update(i, true));
    } else {
        if t.len() > 0 {
            lemma_count_true(t, 0);
        }
        assert(s.update(i, true).drop_last() =~= t);
    }
}

/// What a search below `x` records: `vis` holds the children of `x` and is
/// closed under children, and each visited node was reached from `pred` of
/// it, `dist` edges below `x`.
pub open spec fn search_ok<D>(v: DagView<D>, x: NodeIdx, vis: Seq<bool>, pred: Seq<NodeIdx>, dist: Seq<usize>) -> bool {
    &&& vis.len() == v.nodes.len()
    &&& pred.len() == v.nodes.len()
    &&& dist.len() == v.nodes.len()
    &&& forall|k: int| 0 <= k < v.node(x).children.len() ==> vis[#[trigger] v.node(x).children[k].id()]
    &&& forall|i: int, k: int|
        0 <= i < vis.len() && vis[i] && 0 <= k < v.nodes[i].children.len() ==> vis[#[trigger] v.nodes[i].children[k].id()]
    &&& forall|i: int| 0 <= i < vis.len() && #[trigger] vis[i] ==> reached_from(v, x, pred, dist, i)
    &&& forall|i: int| 0 <= i < vis.len() && #[trigger] vis[i] && dist[i] > 1 ==> vis[pred[i].id()]
}

/// The state of a search below `x`: `stack` holds visited nodes still to
/// be expanded, `cnt` nodes are visited, and every visited node other than
/// those of `stack` and `busy` has its children visited.
pub open spec fn search_inv<D>(
    v: DagView<D>,
    x: NodeIdx,
    vis: Seq<bool>,
    pred: Seq<NodeIdx>,
    dist: Seq<usize>,
    stack: Seq<NodeIdx>,
    cnt: nat,
    busy: Option<NodeIdx>,
) -> bool {
    &&& vis.len() == v.nodes.len()
    &&& pred.len() == v.nodes.len()
    &&& dist.len() == v.nodes.len()
    &&& count_true(vis) == cnt
    &&& forall|k: int| 0 <= k < stack.len() ==> v.has(#[trigger] stack[k]) && vis[stack[k].id()]
    &&& forall|i: int| 0 <= i < vis.len() && #[trigger] vis[i] ==> reached_from(v, x, pred, dist, i)
    &&& forall|i: int| 0 <= i < vis.len() && #[trigger] vis[i] && dist[i] > 1 ==> vis[pred[i].id()]
    &&& forall|i: int| 0 <= i < vis.len() && #[trigger] vis[i] ==> dist[i] <= cnt
    &&& forall|i: int, k: int|
        0 <= i < vis.len() && vis[i] && 0 <= k < v.nodes[i].children.len() && !stack.contains(NodeIdx(i as usize))
            && busy != Some(NodeIdx(i as usize)) ==> vis[#[trigger] v.nodes[i].children[k].id()]
}

/// Node `i` was reached from `pred[i]`, which lists it as a child: from
/// `x` itself when `dist[i]` is 1, and otherwise from a visited node one
/// edge closer to `x`.
pub open spec fn reached_from<D>(v: DagView<D>, x: NodeIdx, pred: Seq<NodeIdx>, dist: Seq<usize>, i: int) -> bool {
    &&& v.has(pred[i])
    &&& v.node(pred[i]).children.contains(NodeIdx(i as usize))
    &&& dist[i] >= 1
    &&& dist[i] == 1 ==> pred[i] == x
    &&& dist[i] > 1 ==> pred[i].id() < dist.len() && dist[pred[i].id()] + 1 == dist[i]
}

/// An arena-allocated Directed Acyclic Graph (DAG) implementation.
#[derive(Clone, Debug, Hash)]
pub struct ArenaDag<D> {
    roots: VecDeque<NodeIdx>,
    nodes: Vec<Node<D>>,
    garbage: VecDeque<NodeIdx>,
}

impl<D> std::ops::Index<NodeIdx> for ArenaDag<D> {
    type Output = Node<D>;

    fn index(&self, idx: NodeIdx) -> (r: &Node<D>)
        ensures
            r@ == self@.node(idx),
    {
        &self.nodes[idx.0]
    }
}

impl<D> vstd::std_specs::core::IndexSpecImpl<NodeIdx> for ArenaDag<D> {
    open spec fn index_req(&self, idx: &NodeIdx) -> bool {
        self@.has(*idx)
    }
}

impl<D> ArenaDag<D> {
    /// The abstract value of `self`.
    pub closed spec fn view(&self) -> DagView<D> {
        DagView {
            roots: self.roots@,
            nodes: self.nodes@.map_values(|n: Node<D>| n@),
            garbage: self.garbage@,
        }
    }

    /// The structure of `self` is well-formed.
    pub open spec fn wf(&self) -> bool {
        self@.wf()
    }

    /// An empty DAG.
    pub fn new() -> (r: Self)
        ensures
            r@.roots.len() == 0,
            r@.nodes.len() == 0,
            r@.garbage.len() == 0,
            r.wf(),
    {
        Self::with_capacity(128)
    }

    /// An empty DAG, with room for `node_count` nodes before reallocation.
    pub fn with_capacity(node_count: usize) -> (r: Self)
        ensures
            r@.roots.len() == 0,
            r@.nodes.len() == 0,
            r@.garbage.len() == 0,
            r.wf(),
    {
        let r = Self {
            roots: VecDeque::with_capacity(4),
            nodes: Vec::with_capacity(node_count),
            garbage: VecDeque::with_capacity(16),
        };
        assert(r@.nodes =~= Seq::<DagNodeView<D>>::empty());
        r
    }

    /// Get the logical size, which is defined as `physical size - garbage size`
    /// i.e. the number of allocated, non-garbage nodes in `self`.
    pub fn logical_size(&self) -> (r: NodeCount)
        requires
            self@.garbage.len() <= self@.nodes.len(),
        ensures
            r.count() == self@.nodes.len() - self@.garbage.len(),
            self.wf() ==> r.count() == unqueued(self@.garbage, self@.nodes.len()).len(),
    {
        proof {
            if self.wf() {
                assert forall|k: int| 0 <= k < self@.garbage.len() implies (#[trigger] self@.garbage[k]).id()
                    < self@.nodes.len() by {
                    assert(self@.has(self@.garbage[k]));
                }
                lemma_queue_count(self@.garbage, self@.nodes.len());
            }
        }
        NodeCount(self.nodes.len() - self.garbage.len())
    }

    /// Get the physical size, which is defined as the number of nodes
    /// allocated in the DAG, whether they are garbage or not.
    pub fn physical_size(&self) -> (r: NodeCount)
        ensures
            r.count() == self@.nodes.len(),
    {
        NodeCount(self.nodes.len())
    }

    /// Get the garbage size i.e. the number of garbage nodes in `self`.
    pub fn garbage_size(&self) -> (r: NodeCount)
        ensures
            r.count() == self@.garbage.len(),
    {
        NodeCount(self.garbage.len())
    }

    /// The root nodes, in the order in which they became roots.
    pub fn roots(&self) -> (r: &VecDeque<NodeIdx>)
        ensures
            r@ == self@.roots,
    {
        &self.roots
    }

    /// The root nodes, in the order in which they became roots.
    pub fn roots_iter(&self) -> (r: Vec<NodeIdx>)
        ensures
            r@ == self@.roots,
    {
        let mut r: Vec<NodeIdx> = Vec::with_capacity(self.roots.len());
        let mut i: usize = 0;
        while i < self.roots.len()
            invariant
                0 <= i <= self@.roots.len(),
                r@ == self@.roots.take(i as int),
            decreases self@.roots.len() - i,
        {
            r.push(self.roots[i]);
            assert(self@.roots.take(i + 1) =~= self@.roots.take(i as int).push(self@.roots[i as int]));
            i = i + 1;
        }
        assert(self@.roots.take(i as int) =~= self@.roots);
        r
    }

    /// Check that `self[node_idx]` has a child.
    pub fn ensure_node_is_branch(&self, node_idx: NodeIdx) -> (r: Result<()>)
        requires
            self@.has(node_idx),
        ensures
            r is Ok <==> self@.node(node_idx).children.len() > 0,
            r matches Err(e) ==> e == Error::ExpectedBranchNode(node_idx),
    {
        if self.nodes[node_idx.0].is_branch_node() {
            Ok(())
        } else {
            Err(Error::ExpectedBranchNode(node_idx))
        }
    }

    /// Check that `self[node_idx]` has no child.
    pub fn ensure_node_is_leaf(&self, node_idx: NodeIdx) -> (r: Result<()>)
        requires
            self@.has(node_idx),
        ensures
            r is Ok <==> self@.node(node_idx).children.len() == 0,
            r matches Err(e) ==> e == Error::ExpectedLeafNode(node_idx),
    {
        if self.nodes[node_idx.0].is_leaf_node() {
            Ok(())
        } else {
            Err(Error::ExpectedLeafNode(node_idx))
        }
    }

    /// Check that `self[node_idx]` has no parent.
    pub fn ensure_node_is_root(&self, node_idx: NodeIdx) -> (r: Result<()>)
        requires
            self@.has(node_idx),
        ensures
            r is Ok <==> self@.node(node_idx).parents.len() == 0,
            r matches Err(e) ==> e == Error::ExpectedRootNode(node_idx),
    {
        if self.nodes[node_idx.0].is_root_node() {
            Ok(())
        } else {
            Err(Error::ExpectedRootNode(node_idx))
        }
    }

    /// The nodes below (and including) `self[start_idx]`, in depth-first
    /// pre-order: each node comes before the nodes below it, and the
    /// children of a node are visited left to right.
    pub fn dfs(&self, start_idx: NodeIdx) -> (r: Vec<NodeIdx>)
        requires
            self.wf(),
            self@.has(start_idx),
        ensures
            r@ == self@.preorder(start_idx),
    {
        let ghost v = self@.shape();
        proof {
            lemma_shape(self@);
        }
        let ghost goal = v.preorder(start_idx);
        let mut output: Vec<NodeIdx> = Vec::with_capacity(self.nodes.len());
        let mut stack: Vec<(NodeIdx, usize)> = Vec::new();
        stack.push((start_idx, self.nodes.len()));
        proof {
            assert(stack@.drop_last() =~= Seq::<(NodeIdx, usize)>::empty());
            assert(v.pending(stack@.drop_last()) =~= Seq::<NodeIdx>::empty());
            assert(v.pending(stack@) =~= goal);
        }
        loop
            invariant
                v == self@.shape(),
                self@.wf(),
                v.linked(),
                v.nodes.len() == self@.nodes.len(),
                forall|x: NodeIdx| self@.has(x) ==> #[trigger] v.children_of(x) == self@.node(x).children,
                forall|k: int| 0 <= k < stack@.len() ==> v.has(#[trigger] stack@[k].0),
                output@ + v.pending(stack@) == goal,
            ensures
                output@ == goal,
            decreases v.pending(stack@).len(), stack@.len(),
        {
            let ghost st0 = stack@;
            match stack.pop() {
                None => {
                    assert(output@ =~= goal);
                    break;
                },
                Some(frame) => {
                    let (x, f) = frame;
                    let ghost rest = stack@;
                    assert(rest =~= st0.drop_last());
                    assert(v.has(st0[st0.len() - 1].0));
                    if f > 0 {
                        let ghost o = output@;
                        output.push(x);
                        let node = &self.nodes[x.0];
                        assert(node@ == self@.node(x));
                        let ghost cs = v.children_of(x);
                        assert(cs == node@.children);
                        let mut k: usize = node.children.len();
                        assert(cs.subrange(k as int, cs.len() as int) =~= Seq::<NodeIdx>::empty());
                        while k > 0
                            invariant
                                v == self@.shape(),
                                v.linked(),
                                self@.wf(),
                                v.nodes.len() == self@.nodes.len(),
                                node@ == self@.node(x),
                                self@.has(x),
                                cs == v.children_of(x),
                                cs == node@.children,
                                0 <= k <= cs.len(),
                                f > 0,
                                forall|j: int| 0 <= j < stack@.len() ==> v.has(#[trigger] stack@[j].0),
                                v.pending(stack@) == v.dfs_list(
                                    cs.subrange(k as int, cs.len() as int),
                                    (f - 1) as nat,
                                ) + v.pending(rest),
                            decreases k,
                        {
                            k = k - 1;
                            let c = node.children[k];
                            assert(c == cs[k as int]);
                            assert(self@.has(self@.nodes[x.id()].children[k as int]));
                            let ghost st1 = stack@;
                            stack.push((c, f - 1));
                            proof {
                                assert(stack@.drop_last() =~= st1);
                                let xs = cs.subrange(k as int, cs.len() as int);
                                assert(xs[0] == c);
                                assert(xs.drop_first() =~= cs.subrange(k + 1, cs.len() as int));
                                assert(v.pending(stack@) =~= v.dfs_list(xs, (f - 1) as nat) + v.pending(
                                    rest,
                                ));
                            }
                        }
                        proof {
                            assert(cs.subrange(0, cs.len() as int) =~= cs);
                            assert(output@ + v.pending(stack@) =~= o + v.pending(st0));
                        }
                    } else {
                        assert(v.pending(st0) =~= v.pending(rest));
                    }
                },
            }
        }
        output
    }

    /// The children of the nodes of `xs`, node by node.
    fn children_of_all(&self, xs: &Vec<NodeIdx>) -> (r: Vec<NodeIdx>)
        requires
            self.wf(),
            forall|k: int| 0 <= k < xs@.len() ==> self@.has(#[trigger] xs@[k]),
        ensures
            r@ == self@.shape().neighbors_of_all(xs@, false),
            forall|k: int| 0 <= k < r@.len() ==> self@.has(#[trigger] r@[k]),
    {
        proof {
            lemma_shape(self@);
        }
        let mut r: Vec<NodeIdx> = Vec::new();
        let mut i: usize = 0;
        while i < xs.len()
            invariant
                self.wf(),
                forall|x: NodeIdx| self@.has(x) ==> #[trigger] self@.shape().children_of(x) == self@.node(x).children,
                forall|k: int| 0 <= k < xs@.len() ==> self@.has(#[trigger] xs@[k]),
                0 <= i <= xs@.len(),
                r@ == self@.shape().neighbors_of_all(xs@.take(i as int), false),
                forall|k: int| 0 <= k < r@.len() ==> self@.has(#[trigger] r@[k]),
            decreases xs@.len() - i,
        {
            let x = xs[i];
            assert(self@.has(xs@[i as int]));
            let node = &self.nodes[x.0];
            assert(node@ == self@.node(x));
            proof {
                assert(xs@.take(i + 1).drop_last() =~= xs@.take(i as int));
                assert(xs@.take(i + 1).last() == x);
            }
            let ghost before = r@;
            let mut j: usize = 0;
            while j < node.children.len()
                invariant
                    self.wf(),
                    node@ == self@.node(x),
                    self@.has(x),
                    0 <= j <= node@.children.len(),
                    r@ == before + node@.children.take(j as int),
                    forall|k: int| 0 <= k < r@.len() ==> self@.has(#[trigger] r@[k]),
                decreases node@.children.len() - j,
            {
                assert(self@.has(self@.nodes[x.id()].children[j as int]));
                r.push(node.children[j]);
                assert(before + node@.children.take(j + 1) =~= (before + node@.children.take(j as int)).push(
                    node@.children[j as int],
                ));
                j = j + 1;
            }
            assert(node@.children.take(j as int) =~= node@.children);
            i = i + 1;
        }
        assert(xs@.take(i as int) =~= xs@);
        r
    }

    /// The nodes below (and including) `self[start_idx]`, in breadth-first
    /// order: layer by layer, each layer holding the children of the nodes
    /// of the previous one.
    pub fn bfs(&self, start_idx: NodeIdx) -> (r: Vec<NodeIdx>)
        requires
            self.wf(),
            self@.has(start_idx),
        ensures
            r@ == self@.bfs_from(start_idx),
    {
        let ghost v = self@.shape();
        let ghost goal = v.layers(seq![start_idx], false, v.nodes.len());
        proof {
            lemma_shape(self@);
        }
        let mut output: Vec<NodeIdx> = Vec::new();
        let mut layer: Vec<NodeIdx> = Vec::new();
        layer.push(start_idx);
        let mut fuel: usize = self.nodes.len();
        assert(layer@ =~= seq![start_idx]);
        loop
            invariant
                self.wf(),
                v == self@.shape(),
                forall|k: int| 0 <= k < layer@.len() ==> self@.has(#[trigger] layer@[k]),
                output@ + v.layers(layer@, false, fuel as nat) == goal,
            ensures
                output@ == goal,
            decreases fuel,
        {
            if fuel == 0 {
                output.append(&mut layer);
                break;
            }
            let mut next = self.children_of_all(&layer);
            if next.len() == 0 {
                output.append(&mut layer);
                break;
            }
            let ghost l = layer@;
            let ghost o = output@;
            output.append(&mut layer);
            assert(o + (l + v.layers(next@, false, (fuel - 1) as nat)) =~= (o + l) + v.layers(
                next@,
                false,
                (fuel - 1) as nat,
            ));
            layer = next;
            fuel = fuel - 1;
        }
        output
    }

    /// The nodes below `self[start_idx]`, in depth-first pre-order, without
    /// `start_idx` itself.
    pub fn descendants_of(&self, start_idx: NodeIdx) -> (r: Vec<NodeIdx>)
        requires
            self.wf(),
            self@.has(start_idx),
        ensures
            r@ == self@.preorder(start_idx).filter(|y: NodeIdx| y != start_idx),
    {
        let all = self.dfs(start_idx);
        without_idx(&all, start_idx)
    }

    /// Return `true` iff. some path `self[src_idx] -> ... -> self[dst_idx]`
    /// exists i.e. iff. `dst` is reachable from `src`.
    pub fn is_reachable(&self, src_idx: NodeIdx, dst_idx: NodeIdx) -> (r: bool)
        requires
            self.wf(),
            self@.has(src_idx),
        ensures
            r == self@.bfs_from(src_idx).contains(dst_idx),
            r == dag_reaches(self@, src_idx, dst_idx),
    {
        let order = self.bfs(src_idx);
        proof {
            lemma_bfs_paths(self@, src_idx, dst_idx);
        }
        holds(&order, dst_idx)
    }

    /// Take the first garbage slot as it is, or else append a new node with
    /// default data.
    fn alloc_node(&mut self) -> (r: NodeIdx) where D: Default
        requires
            old(self).wf(),
        ensures
            (final(self)@, r) == old(self)@.take_slot(final(self)@.node(r).data),
            old(self)@.garbage.len() == 0 ==> is_default(final(self)@.node(r).data),
            final(self)@.has(r),
    {
        let ghost v0 = self@;
        match self.garbage.pop_front() {
            Some(x) => {
                assert(v0.has(v0.garbage[0]));
                assert(self@ =~= v0.take_slot(self@.node(x).data).0);
                x
            },
            None => {
                let x = NodeIdx(self.nodes.len());
                let d = D::default();
                self.nodes.push(Node::new(x, d));
                assert(self@ =~= v0.take_slot(d).0);
                x
            },
        }
    }

    /// A copy of the parents of `self[x]`.
    fn parents_copy(&self, x: NodeIdx) -> (r: Vec<NodeIdx>)
        requires
            self@.has(x),
        ensures
            r@ == self@.node(x).parents,
    {
        let node = &self.nodes[x.0];
        let mut r: Vec<NodeIdx> = Vec::with_capacity(node.parents.len());
        let mut i: usize = 0;
        while i < node.parents.len()
            invariant
                node@ == self@.node(x),
                0 <= i <= node@.parents.len(),
                r@ == node@.parents.take(i as int),
            decreases node@.parents.len() - i,
        {
            r.push(node.parents[i]);
            assert(node@.parents.take(i + 1) =~= node@.parents.take(i as int).push(node@.parents[i as int]));
            i = i + 1;
        }
        assert(node@.parents.take(i as int) =~= node@.parents);
        r
    }

    /// Add a node to the graph, as the last child of each of `parent_idxs`
    /// (each at most once), in the layer after its deepest parent.  A node
    /// without parents becomes the last root.
    pub fn add_node(&mut self, parent_idxs: &[NodeIdx]) -> (r: Result<NodeIdx>) where D: Default
        requires
            old(self).wf(),
            old(self)@.can_add(parent_idxs@),
        ensures
            final(self).wf(),
            match r {
                Ok(x) => {
                    &&& final(self)@.has(x)
                    &&& final(self)@.nodes.len() >= old(self)@.nodes.len()
                    &&& (final(self)@, x) == old(self)@.added(final(self)@.node(x).data, parent_idxs@)
                    &&& old(self)@.garbage.len() == 0 ==> is_default(final(self)@.node(x).data)
                    &&& !final(self)@.node(x).parents.contains(x) ==> {
                        let qs = final(self)@.node(x).parents;
                        &&& qs.len() == 0 ==> final(self)@.node(x).layer == 0
                        &&& forall|j: int|
                            0 <= j < qs.len() ==> final(self)@.node(#[trigger] qs[j]).layer < final(self)@.node(
                                x,
                            ).layer
                        &&& qs.len() > 0 ==> exists|j: int|
                            0 <= j < qs.len() && final(self)@.node(x).layer == final(self)@.node(
                                #[trigger] qs[j],
                            ).layer + 1
                    }
                    &&& garbage_cleared(old(self)@) ==> {
                        &&& is_default(final(self)@.node(x).data)
                        &&& final(self)@.node(x).parents == add_unique(Seq::empty(), parent_idxs@)
                        &&& !parent_idxs@.contains(x) ==> final(self)@.node(x).children.len() == 0
                        &&& (forall|k: int|
                            0 <= k < parent_idxs@.len() ==> !old(self)@.garbage.contains(#[trigger] parent_idxs@[k]))
                            ==> garbage_cleared(final(self)@)
                    }
                },
                Err(_) => false,
            },
    {
        let ghost v0 = self@;
        let node_idx = self.alloc_node();
        assert(self@.nodes.len() == self.nodes@.len());
        assert(self.nodes@.len() == self.nodes.len());
        let ghost dv = self@.node(node_idx).data;
        let ghost v1 = self@;
        assert((v1, node_idx) == v0.take_slot(dv));
        assert(v0.take_slot(arbitrary()).1 == node_idx);
        assert(self@.nodes.len() == v0.slots_after_add());
        self.nodes[node_idx.0].add_parents(parent_idxs);
        let ghost ps = add_unique(v1.node(node_idx).parents, parent_idxs@);
        assert(ps == v0.new_parents(parent_idxs@));
        let ghost v2 = v1.with_node(node_idx, DagNodeView { parents: ps, ..v1.node(node_idx) });
        assert(self@ =~= v2);
        if self.nodes[node_idx.0].is_root_node() {
            self.roots.push_back(node_idx);
        }
        let ghost v3 = self@;
        let parents = self.parents_copy(node_idx);
        assert(parents@ == ps);
        proof {
            assert forall|k: int| 0 <= k < ps.len() implies v1.has(#[trigger] ps[k]) by {
                lemma_add_unique_in(v1.node(node_idx).parents, parent_idxs@, k);
                if k < v1.node(node_idx).parents.len() {
                    assert(v1.node(node_idx).parents[k] == ps[k]);
                    if v0.garbage.len() > 0 {
                        assert(v0.has(v0.nodes[node_idx.id()].parents[k]));
                    }
                } else {
                    let j = choose|j: int| 0 <= j < parent_idxs@.len() && parent_idxs@[j] == ps[k];
                    assert(parent_idxs@[j].id() < v0.slots_after_add());
                }
            }
            assert(parents@.take(0) =~= Seq::<NodeIdx>::empty());
        }
        let mut k: usize = 0;
        while k < parents.len()
            invariant
                parents@ == ps,
                forall|j: int| 0 <= j < ps.len() ==> v1.has(#[trigger] ps[j]),
                v1.has(node_idx),
                v3.nodes.len() == v1.nodes.len(),
                0 <= k <= ps.len(),
                self@ == v3.adopt_by(ps.take(k as int), node_idx),
                self@.nodes.len() == v1.nodes.len(),
            decreases ps.len() - k,
        {
            let p = parents[k];
            assert(v1.has(ps[k as int]));
            let ghost w = self@;
            let one = [node_idx];
            assert(one@ =~= seq![node_idx]);
            self.nodes[p.0].add_children(&one);
            proof {
                assert(ps.take(k + 1).drop_last() =~= ps.take(k as int));
                assert(ps.take(k + 1).last() == p);
                assert(self@ =~= w.with_node(p, DagNodeView { children: add_unique(w.node(p).children, seq![node_idx]), ..w.node(p) }));
            }
            k = k + 1;
        }
        assert(ps.take(k as int) =~= ps);
        let ghost v4 = self@;
        proof {
            lemma_adopt_by_layers(v3, ps, node_idx);
        }
        let mut layer: usize = 0;
        let mut j: usize = 0;
        assert(ps.take(0) =~= Seq::<NodeIdx>::empty());
        while j < parents.len()
            invariant
                parents@ == ps,
                self@ == v4,
                forall|q: int| 0 <= q < ps.len() ==> v1.has(#[trigger] ps[q]),
                forall|q: int| 0 <= q < ps.len() ==> v4.node(#[trigger] ps[q]).layer == v1.node(ps[q]).layer,
                forall|q: int| 0 <= q < ps.len() ==> v1.node(#[trigger] ps[q]).layer < usize::MAX,
                v4.nodes.len() == v1.nodes.len(),
                0 <= j <= ps.len(),
                layer == v4.layer_below(ps.take(j as int)),
            decreases ps.len() - j,
        {
            let p = parents[j];
            assert(v1.has(ps[j as int]));
            assert(v1.node(ps[j as int]).layer < usize::MAX);
            let l = self.nodes[p.0].layer + 1;
            proof {
                assert(ps.take(j + 1).drop_last() =~= ps.take(j as int));
                assert(ps.take(j + 1).last() == p);
            }
            if l > layer {
                layer = l;
            }
            j = j + 1;
        }
        assert(ps.take(j as int) =~= ps);
        self.nodes[node_idx.0].layer = layer;
        proof {
            let v5 = v4.with_node(node_idx, DagNodeView { layer: v4.layer_below(ps) as usize, ..v4.node(node_idx) });
            assert(self@ =~= v5);
            lemma_added_wf(v0, v1, v3, v4, self@, node_idx, ps);
            if garbage_cleared(v0) {
                lemma_added_cleared(v0, parent_idxs@, self@, node_idx);
            }
            lemma_added_layer(v0, self@.node(node_idx).data, parent_idxs@);
        }
        Ok(node_idx)
    }

    /// Add a root node with default data.
    pub fn add_root(&mut self) -> (r: Result<NodeIdx>) where D: Default
        requires
            old(self).wf(),
            old(self)@.can_add(Seq::empty()),
        ensures
            final(self).wf(),
            match r {
                Ok(x) => {
                    &&& final(self)@.has(x)
                    &&& final(self)@.nodes.len() >= old(self)@.nodes.len()
                    &&& (final(self)@, x) == old(self)@.added(final(self)@.node(x).data, Seq::empty())
                    &&& old(self)@.garbage.len() == 0 ==> is_default(final(self)@.node(x).data)
                    &&& garbage_cleared(old(self)@) ==> {
                        &&& is_default(final(self)@.node(x).data)
                        &&& final(self)@.node(x).parents.len() == 0
                        &&& final(self)@.node(x).children.len() == 0
                        &&& garbage_cleared(final(self)@)
                    }
                },
                Err(_) => false,
            },
    {
        let none: [NodeIdx; 0] = [];
        assert(none@ =~= Seq::<NodeIdx>::empty());
        assert(add_unique(Seq::<NodeIdx>::empty(), Seq::<NodeIdx>::empty()) == Seq::<NodeIdx>::empty());
        self.add_node(&none)
    }

    /// Whether `x` is queued as garbage.
    fn is_garbage(&self, x: NodeIdx) -> (r: bool)
        ensures
            r == self@.garbage.contains(x),
    {
        let mut k: usize = 0;
        while k < self.garbage.len()
            invariant
                0 <= k <= self@.garbage.len(),
                forall|j: int| 0 <= j < k ==> self@.garbage[j] != x,
            decreases self@.garbage.len() - k,
        {
            if self.garbage[k] == x {
                return true;
            }
            k = k + 1;
        }
        false
    }

    /// Recycle the leaf `self[node_idx]`: take it off the children of its
    /// parents, reset it, and queue it as garbage, unless it is queued
    /// already.
    fn recycle_node(&mut self, node_idx: NodeIdx) -> (r: Result<()>) where D: Default
        requires
            old(self).wf(),
            old(self)@.has(node_idx),
        ensures
            final(self).wf(),
            match r {
                Ok(()) => {
                    &&& old(self)@.node(node_idx).children.len() == 0
                    &&& final(self)@ == old(self)@.recycled(node_idx, final(self)@.node(node_idx).data)
                    &&& is_default(final(self)@.node(node_idx).data)
                    &&& garbage_cleared(old(self)@) ==> garbage_cleared(final(self)@)
                },
                Err(e) => {
                    &&& old(self)@.node(node_idx).children.len() > 0
                    &&& e == Error::ExpectedLeafNode(node_idx)
                    &&& final(self)@ == old(self)@
                },
            },
    {
        match self.ensure_node_is_leaf(node_idx) {
            Ok(()) => {},
            Err(e) => {
                return Err(e);
            },
        }
        let ghost v0 = self@;
        let parents = self.parents_copy(node_idx);
        let ghost ps = parents@;
        proof {
            assert(v0.in_range(v0.nodes[node_idx.id()]));
            assert(ps.take(0) =~= Seq::<NodeIdx>::empty());
        }
        let mut k: usize = 0;
        while k < parents.len()
            invariant
                v0 == old(self)@,
                v0.wf(),
                v0.has(node_idx),
                parents@ == ps,
                ps == v0.node(node_idx).parents,
                forall|j: int| 0 <= j < ps.len() ==> v0.has(#[trigger] ps[j]),
                0 <= k <= ps.len(),
                self@ == v0.disown_by(ps.take(k as int), node_idx),
            decreases ps.len() - k,
        {
            let p = parents[k];
            assert(v0.has(ps[k as int]));
            proof {
                lemma_disown_by(v0, ps.take(k as int), node_idx);
            }
            let ghost w = self@;
            let one = [node_idx];
            assert(one@ =~= seq![node_idx]);
            self.nodes[p.0].remove_children(&one);
            proof {
                assert(ps.take(k + 1).drop_last() =~= ps.take(k as int));
                assert(ps.take(k + 1).last() == p);
                assert(self@ =~= w.with_node(p, DagNodeView { children: strip(w.node(p).children, seq![node_idx]), ..w.node(p) }));
            }
            k = k + 1;
        }
        assert(ps.take(k as int) =~= ps);
        proof {
            lemma_disown_by(v0, ps, node_idx);
        }
        let ghost w = self@;
        self.nodes[node_idx.0].clear();
        let ghost dv = self@.node(node_idx).data;
        let ghost w2 = w.with_node(
            node_idx,
            DagNodeView { layer: 0, parents: Seq::empty(), children: Seq::empty(), data: dv, ..w.node(node_idx) },
        );
        assert(self@ =~= w2);
        if !self.is_garbage(node_idx) {
            self.garbage.push_back(node_idx);
        }
        proof {
            lemma_with_node_wf(w, node_idx, w2.node(node_idx));
            lemma_enqueue_one(w2.garbage, node_idx);
            assert(self@ =~= v0.recycled(node_idx, dv));
            if garbage_cleared(v0) {
                lemma_recycled_keeps_cleared(v0, node_idx, dv);
            }
            assert forall|k: int| 0 <= k < self@.garbage.len() implies self@.has(#[trigger] self@.garbage[k]) by {
                assert(self@.garbage.contains(self@.garbage[k]));
                if self@.garbage[k] != node_idx {
                    let m = choose|m: int| 0 <= m < w2.garbage.len() && w2.garbage[m] == self@.garbage[k];
                    assert(w2.has(w2.garbage[m]));
                }
            }
        }
        Ok(())
    }

    /// Remove the sub-DAG rooted in `start_idx`: recycle its nodes in
    /// reverse depth-first pre-order, so that every node is a leaf by the
    /// time it is recycled, and stop at the first one that is not.  On
    /// success every node below `start_idx` ends queued as garbage once,
    /// without edges, in layer 0 and with default data.
    pub fn remove_subdag(&mut self, start_idx: NodeIdx) -> (r: Result<()>) where D: Default
        requires
            old(self).wf(),
            old(self)@.has(start_idx),
        ensures
            final(self).wf(),
            exists|dvs: Seq<D>|
                #![trigger old(self)@.recycle_steps(old(self)@.preorder(start_idx).reverse(), dvs)]
                {
                    &&& dvs.len() == old(self)@.recycle_steps(old(self)@.preorder(start_idx).reverse(), dvs).2
                    &&& forall|k: int| 0 <= k < dvs.len() ==> #[trigger] is_default(dvs[k])
                    &&& final(self)@ == old(self)@.recycle_steps(old(self)@.preorder(start_idx).reverse(), dvs).0
                    &&& match r {
                        Ok(()) => old(self)@.recycle_steps(old(self)@.preorder(start_idx).reverse(), dvs).1 is None,
                        Err(e) => old(self)@.recycle_steps(old(self)@.preorder(start_idx).reverse(), dvs).1
                            == Some(e->ExpectedLeafNode_0) && e is ExpectedLeafNode,
                    }
                },
            r is Ok ==> forall|k: int|
                0 <= k < old(self)@.preorder(start_idx).len() ==> is_cleared(
                    final(self)@,
                    #[trigger] old(self)@.preorder(start_idx)[k],
                ) && is_default(final(self)@.node(old(self)@.preorder(start_idx)[k]).data),
            garbage_cleared(old(self)@) ==> garbage_cleared(final(self)@),
    {
        let ghost v0 = self@;
        let order = self.dfs(start_idx);
        let ghost xs = order@.reverse();
        let ghost n = order@.len();
        proof {
            lemma_shape(v0);
            lemma_preorder_in_range(v0.shape(), start_idx);
            assert(xs.take(0) =~= Seq::<NodeIdx>::empty());
        }
        let ghost mut dvs: Seq<D> = Seq::empty();
        let mut i: usize = order.len();
        while i > 0
            invariant
                v0 == old(self)@,
                v0.wf(),
                order@ == v0.preorder(start_idx),
                xs == order@.reverse(),
                n == order@.len(),
                forall|k: int| 0 <= k < order@.len() ==> v0.shape().has(#[trigger] order@[k]),
                v0.shape().nodes.len() == v0.nodes.len(),
                0 <= i <= n,
                self.wf(),
                self@.nodes.len() == v0.nodes.len(),
                dvs.len() == n - i,
                forall|k: int| 0 <= k < dvs.len() ==> #[trigger] is_default(dvs[k]),
                v0.recycle_steps(xs.take(n - i), dvs) == (self@, None::<NodeIdx>, dvs.len()),
                garbage_cleared(v0) ==> garbage_cleared(self@),
            decreases i,
        {
            i = i - 1;
            let x = order[i];
            assert(v0.shape().has(order@[i as int]));
            let ghost m = n - 1 - i;
            proof {
                assert(xs.take(m + 1).drop_last() =~= xs.take(m));
                assert(xs.take(m + 1).last() == x);
            }
            let ghost w = self@;
            match self.recycle_node(x) {
                Ok(()) => {
                    proof {
                        assert(w.in_range(w.nodes[x.id()]));
                        lemma_disown_by(w, w.node(x).parents, x);
                        let dv = self@.node(x).data;
                        let dvs2 = dvs.push(dv);
                        lemma_recycle_steps_dvs(v0, xs.take(m), dvs, dvs2);
                        dvs = dvs2;
                    }
                },
                Err(e) => {
                    proof {
                        lemma_recycle_steps_dvs(v0, xs.take(m), dvs, dvs);
                        assert(v0.recycle_steps(xs.take(m + 1), dvs) == (w, Some(x), dvs.len()));
                        lemma_recycle_steps_stuck(v0, xs.take(m + 1), xs.subrange(m + 1, n as int), dvs);
                        assert(xs.take(m + 1) + xs.subrange(m + 1, n as int) =~= xs);
                    }
                    return Err(e);
                },
            }
        }
        assert(xs.take(n as int) =~= xs);
        proof {
            assert forall|k: int| 0 <= k < xs.len() implies v0.has(#[trigger] xs[k]) by {
                assert(xs[k] == order@[n - 1 - k]);
                assert(v0.shape().has(order@[n - 1 - k]));
            }
            lemma_recycle_steps_cleared(v0, xs, dvs);
            assert forall|k: int| 0 <= k < order@.len() implies is_cleared(self@, #[trigger] order@[k]) && is_default(
                self@.node(order@[k]).data,
            ) by {
                assert(xs[n - 1 - k] == order@[k]);
            }
        }
        Ok(())
    }

    /// Check that the nodes of `node_idxs` have no parents, and return an
    /// error for the first one that has.
    fn ensure_roots(&self, node_idxs: &[NodeIdx]) -> (r: Result<()>)
        requires
            forall|k: int| 0 <= k < node_idxs@.len() ==> self@.has(#[trigger] node_idxs@[k]),
        ensures
            r == match self@.first_non_root(node_idxs@) {
                Some(x) => Err(Error::ExpectedRootNode(x)),
                None => Ok::<(), Error>(()),
            },
    {
        let ghost xs = node_idxs@;
        let mut i: usize = 0;
        assert(xs.skip(0) =~= xs);
        while i < node_idxs.len()
            invariant
                xs == node_idxs@,
                forall|k: int| 0 <= k < xs.len() ==> self@.has(#[trigger] xs[k]),
                0 <= i <= xs.len(),
                self@.first_non_root(xs) == self@.first_non_root(xs.skip(i as int)),
            decreases xs.len() - i,
        {
            let x = node_idxs[i];
            assert(self@.has(xs[i as int]));
            assert(xs.skip(i as int)[0] == x);
            assert(xs.skip(i as int).drop_first() =~= xs.skip(i + 1));
            if !self.nodes[x.0].is_root_node() {
                return Err(Error::ExpectedRootNode(x));
            }
            i = i + 1;
        }
        assert(xs.skip(i as int) =~= Seq::<NodeIdx>::empty());
        Ok(())
    }

    /// Merge sub-DAGs allocated in `self` under a newly added parent node.
    /// The child nodes need to be root nodes before merging i.e. they must
    /// not have any parents. During merging, they're added to the parent
    /// in iteration order.
    /// The parent node becomes a new root node, and has the passed `parent_data`.
    pub fn merge_subdags(&mut self, parent_data: D, child_idxs: &[NodeIdx]) -> (r: Result<NodeIdx>) where
        D: Default,

        requires
            old(self).wf(),
            forall|k: int| 0 <= k < child_idxs@.len() ==> old(self)@.has(#[trigger] child_idxs@[k]),
            old(self)@.can_add(Seq::empty()),
        ensures
            final(self).wf(),
            match old(self)@.first_non_root(child_idxs@) {
                Some(c) => {
                    &&& r == Err::<NodeIdx, Error>(Error::ExpectedRootNode(c))
                    &&& final(self)@ == old(self)@
                },
                None => {
                    let (v1, p) = old(self)@.added(parent_data, Seq::empty());
                    &&& r == Ok::<NodeIdx, Error>(p)
                    &&& final(self)@ == v1.with_node(p, DagNodeView { data: parent_data, ..v1.node(p) }).merged(
                        p,
                        child_idxs@,
                    )
                    &&& (garbage_cleared(old(self)@) && forall|k: int|
                        0 <= k < child_idxs@.len() ==> !old(self)@.garbage.contains(#[trigger] child_idxs@[k]))
                        ==> {
                        &&& final(self)@.roots == old(self)@.roots.push(p)
                        &&& final(self)@.node(p).data == parent_data
                        &&& final(self)@.node(p).parents.len() == 0
                        &&& final(self)@.node(p).children == add_unique(Seq::empty(), child_idxs@)
                        &&& forall|k: int|
                            0 <= k < child_idxs@.len() ==> final(self)@.node(#[trigger] child_idxs@[k]).parents
                                == seq![p]
                        &&& garbage_cleared(final(self)@)
                    }
                },
            },
    {
        let ghost v0 = self@;
        match self.ensure_roots(child_idxs) {
            Ok(()) => {},
            Err(e) => {
                return Err(e);
            },
        }
        let parent_idx = match self.add_root() {
            Ok(p) => p,
            Err(e) => {
                assert(false);
                return Err(e);
            },
        };
        let ghost pd = parent_data;
        let ghost va = self@;
        self.nodes[parent_idx.0].data = parent_data;
        let ghost (v1, q) = v0.added(pd, Seq::empty());
        proof {
            assert(self@ =~= va.with_node(parent_idx, DagNodeView { data: pd, ..va.node(parent_idx) }));
            assert(q == parent_idx);
            assert(self@ =~= v1.with_node(parent_idx, DagNodeView { data: pd, ..v1.node(parent_idx) }));
            lemma_with_node_wf(va, parent_idx, DagNodeView { data: pd, ..va.node(parent_idx) });
            assert(va.in_range(va.nodes[parent_idx.id()]));
        }
        let ghost vb = self@;
        let ghost cs = child_idxs@;
        assert(cs.take(0) =~= Seq::<NodeIdx>::empty());
        let mut k: usize = 0;
        while k < child_idxs.len()
            invariant
                cs == child_idxs@,
                forall|j: int| 0 <= j < cs.len() ==> v0.has(#[trigger] cs[j]),
                vb.wf(),
                vb.has(parent_idx),
                vb.nodes.len() >= v0.nodes.len(),
                0 <= k <= cs.len(),
                self@ == vb.merged(parent_idx, cs.take(k as int)),
                self.wf(),
                self@.nodes.len() == vb.nodes.len(),
            decreases cs.len() - k,
        {
            let c = child_idxs[k];
            assert(v0.has(cs[k as int]));
            let ghost w = self@;
            let one_c = [c];
            assert(one_c@ =~= seq![c]);
            self.nodes[parent_idx.0].add_children(&one_c);
            let ghost w1 = self@;
            let one_p = [parent_idx];
            assert(one_p@ =~= seq![parent_idx]);
            self.nodes[c.0].add_parents(&one_p);
            proof {
                assert(cs.take(k + 1).drop_last() =~= cs.take(k as int));
                assert(cs.take(k + 1).last() == c);
                let n1 = DagNodeView { children: add_unique(w.node(parent_idx).children, seq![c]), ..w.node(parent_idx) };
                assert(w1 =~= w.with_node(parent_idx, n1));
                let n2 = DagNodeView { parents: add_unique(w1.node(c).parents, seq![parent_idx]), ..w1.node(c) };
                assert(self@ =~= w1.with_node(c, n2));
                assert(w.in_range(w.nodes[parent_idx.id()]));
                assert forall|j: int| 0 <= j < n1.children.len() implies w.has(#[trigger] n1.children[j]) by {
                    lemma_add_unique_in(w.node(parent_idx).children, seq![c], j);
                }
                lemma_with_node_wf(w, parent_idx, n1);
                assert(w1.in_range(w1.nodes[c.id()]));
                assert forall|j: int| 0 <= j < n2.parents.len() implies w1.has(#[trigger] n2.parents[j]) by {
                    lemma_add_unique_in(w1.node(c).parents, seq![parent_idx], j);
                }
                lemma_with_node_wf(w1, c, n2);
            }
            k = k + 1;
        }
        assert(cs.take(k as int) =~= cs);
        proof {
            lemma_merge_cleared(v0, va, vb, parent_idx, pd, cs);
        }
        Ok(parent_idx)
    }

    /// Visit the children of `self[y]`, which are `dy + 1` edges below `x`:
    /// each one not visited yet is marked, recorded as reached from `y`,
    /// and pushed on `stack`.
    fn visit_children(
        &self,
        y: NodeIdx,
        dy: usize,
        vis: &mut Vec<bool>,
        pred: &mut Vec<NodeIdx>,
        dist: &mut Vec<usize>,
        stack: &mut Vec<NodeIdx>,
        Ghost(x): Ghost<NodeIdx>,
        Ghost(cnt): Ghost<nat>,
    ) -> (r: Ghost<nat>)
        requires
            self.wf(),
            self@.has(y),
            self@.has(x),
            search_inv(self@, x, old(vis)@, old(pred)@, old(dist)@, old(stack)@, cnt, Some(y)),
            (y == x && dy == 0) || (old(vis)@[y.id()] && old(dist)@[y.id()] == dy && dy >= 1),
            dy <= cnt,
        ensures
            search_inv(self@, x, final(vis)@, final(pred)@, final(dist)@, final(stack)@, r@, None),
            2 * (self@.nodes.len() - r@) + final(stack)@.len() <= 2 * (self@.nodes.len() - cnt) + old(stack)@.len(),
            r@ >= cnt,
            forall|i: int| 0 <= i < old(vis)@.len() && old(vis)@[i] ==> final(vis)@[i],
            forall|k: int| 0 <= k < self@.node(y).children.len() ==> final(vis)@[#[trigger] self@.node(y).children[k].id()],
    {
        let ghost v = self@;
        let node = &self.nodes[y.0];
        assert(node@ == v.node(y));
        assert(v.in_range(v.nodes[y.id()]));
        let ghost mut c_cnt: nat = cnt;
        let ghost stack0 = stack@;
        let ghost vis0 = vis@;
        let mut k: usize = 0;
        while k < node.children.len()
            invariant
                v == self@,
                v.wf(),
                v.has(y),
                v.has(x),
                node@ == v.node(y),
                v.in_range(v.nodes[y.id()]),
                0 <= k <= node@.children.len(),
                search_inv(v, x, vis@, pred@, dist@, stack@, c_cnt, Some(y)),
                (y == x && dy == 0) || (vis@[y.id()] && dist@[y.id()] == dy && dy >= 1),
                dy <= c_cnt,
                c_cnt >= cnt,
                2 * (v.nodes.len() - c_cnt) + stack@.len() <= 2 * (v.nodes.len() - cnt) + stack0.len(),
                vis0.len() == v.nodes.len(),
                forall|i: int| 0 <= i < vis0.len() && vis0[i] ==> vis@[i],
                forall|j: int| 0 <= j < k ==> vis@[#[trigger] node@.children[j].id()],
                forall|j: int| 0 <= j < stack0.len() ==> stack@.contains(#[trigger] stack0[j]),
            decreases node@.children.len() - k,
        {
            let c = node.children[k];
            assert(v.has(node@.children[k as int]));
            if !vis[c.0] {
                let ghost vis_b = vis@;
                let ghost stack_b = stack@;
                proof {
                    lemma_count_true(vis@, c.id());
                }
                vis.set(c.0, true);
                pred.set(c.0, y);
                dist.set(c.0, dy + 1);
                stack.push(c);
                proof {
                    assert forall|i: int| 0 <= i < vis0.len() && vis0[i] implies vis@[i] by {
                        assert(vis_b[i]);
                    }
                    c_cnt = c_cnt + 1;
                    assert(NodeIdx(c.id() as usize) == c);
                    assert(node@.children[k as int] == c);
                    assert(v.node(y).children.contains(c));
                    assert forall|j: int| 0 <= j < stack_b.len() implies stack@.contains(#[trigger] stack_b[j]) by {
                        assert(stack@[j] == stack_b[j]);
                    }
                    assert forall|j: int| 0 <= j < stack0.len() implies stack@.contains(#[trigger] stack0[j]) by {
                        let m = choose|m: int| 0 <= m < stack_b.len() && stack_b[m] == stack0[j];
                        assert(stack@[m] == stack_b[m]);
                    }
                    assert(stack@[stack@.len() - 1] == c);
                    assert forall|i: int| 0 <= i < vis@.len() && #[trigger] vis@[i] implies reached_from(
                        v,
                        x,
                        pred@,
                        dist@,
                        i,
                    ) by {
                        if i != c.id() {
                            assert(vis_b[i]);
                            if dist@[i] > 1 {
                                assert(vis_b[pred@[i].id()]);
                            }
                        } else {
                            assert(NodeIdx(i as usize) == c);
                        }
                    }
                    assert forall|i: int, j: int|
                        0 <= i < vis@.len() && vis@[i] && 0 <= j < v.nodes[i].children.len() && !stack@.contains(
                            NodeIdx(i as usize),
                        ) && Some(y) != Some(NodeIdx(i as usize)) implies vis@[#[trigger] v.nodes[i].children[j].id()] by {
                        if i == c.id() {
                            assert(NodeIdx(i as usize) == c);
                            assert(stack@.contains(c));
                        } else {
                            assert(vis_b[i]);
                            if stack_b.contains(NodeIdx(i as usize)) {
                                let m = choose|m: int| 0 <= m < stack_b.len() && stack_b[m] == NodeIdx(i as usize);
                                assert(stack@[m] == stack_b[m]);
                            }
                        }
                    }
                }
            }
            k = k + 1;
        }
        proof {
            assert forall|i: int, j: int|
                0 <= i < vis@.len() && vis@[i] && 0 <= j < v.nodes[i].children.len() && !stack@.contains(
                    NodeIdx(i as usize),
                ) && None::<NodeIdx> != Some(NodeIdx(i as usize)) implies vis@[#[trigger] v.nodes[i].children[j].id()] by {
                if NodeIdx(i as usize) == y {
                    assert(v.nodes[i] == v.node(y));
                    assert(vis@[node@.children[j].id()]);
                }
            }
        }
        Ghost(c_cnt)
    }

    /// Search below `self[x]`: visit every node that can be reached from a
    /// child of `x`, and record how.
    fn reach_below(&self, x: NodeIdx) -> (r: (Vec<bool>, Vec<NodeIdx>, Vec<usize>))
        requires
            self.wf(),
            self@.has(x),
        ensures
            search_ok(self@, x, r.0@, r.1@, r.2@),
    {
        let ghost v = self@;
        let n = self.nodes.len();
        let mut vis: Vec<bool> = Vec::new();
        let mut pred: Vec<NodeIdx> = Vec::new();
        let mut dist: Vec<usize> = Vec::new();
        let mut i: usize = 0;
        while i < n
            invariant
                n == v.nodes.len(),
                0 <= i <= n,
                vis@.len() == i,
                pred@.len() == i,
                dist@.len() == i,
                forall|j: int| 0 <= j < i ==> !vis@[j],
                count_true(vis@) == 0,
            decreases n - i,
        {
            let ghost vb = vis@;
            vis.push(false);
            pred.push(x);
            dist.push(0);
            assert(vis@.drop_last() =~= vb);
            i = i + 1;
        }
        let mut stack: Vec<NodeIdx> = Vec::new();
        assert(search_inv(v, x, vis@, pred@, dist@, stack@, 0, Some(x)));
        let Ghost(mut cnt) = self.visit_children(x, 0, &mut vis, &mut pred, &mut dist, &mut stack, Ghost(x), Ghost(0));
        proof {
            lemma_count_true(vis@, x.id());
        }
        loop
            invariant
                v == self@,
                v.wf(),
                v.has(x),
                n == v.nodes.len(),
                search_inv(v, x, vis@, pred@, dist@, stack@, cnt, None),
                cnt <= n,
                forall|k: int| 0 <= k < v.node(x).children.len() ==> vis@[#[trigger] v.node(x).children[k].id()],
            ensures
                search_inv(v, x, vis@, pred@, dist@, stack@, cnt, None),
                stack@.len() == 0,
                forall|k: int| 0 <= k < v.node(x).children.len() ==> vis@[#[trigger] v.node(x).children[k].id()],
            decreases 2 * (n - cnt) + stack@.len(),
        {
            let ghost st0 = stack@;
            match stack.pop() {
                None => {
                    assert(stack@.len() == 0);
                    break;
                },
                Some(y) => {
                    assert(st0[st0.len() - 1] == y);
                    assert(v.has(st0[st0.len() - 1]));
                    assert(vis@[y.id()]);
                    assert(reached_from(v, x, pred@, dist@, y.id()));
                    assert(NodeIdx(y.id() as usize) == y);
                    proof {
                        assert forall|i: int, k: int|
                            0 <= i < vis@.len() && vis@[i] && 0 <= k < v.nodes[i].children.len() && !stack@.contains(
                                NodeIdx(i as usize),
                            ) && Some(y) != Some(NodeIdx(i as usize)) implies vis@[#[trigger] v.nodes[i].children[k].id()] by {
                            if st0.contains(NodeIdx(i as usize)) {
                                let m = choose|m: int| 0 <= m < st0.len() && st0[m] == NodeIdx(i as usize);
                                if m < st0.len() - 1 {
                                    assert(stack@[m] == st0[m]);
                                }
                            }
                        }
                        assert forall|k: int| 0 <= k < stack@.len() implies v.has(#[trigger] stack@[k]) && vis@[stack@[k].id()] by {
                            assert(stack@[k] == st0[k]);
                        }
                    }
                    let dy = dist[y.0];
                    let c2 = self.visit_children(y, dy, &mut vis, &mut pred, &mut dist, &mut stack, Ghost(x), Ghost(cnt));
                    proof {
                        cnt = c2@;
                        lemma_count_true(vis@, x.id());
                    }
                },
            }
        }
        proof {
            assert forall|i: int, k: int|
                0 <= i < vis@.len() && vis@[i] && 0 <= k < v.nodes[i].children.len() implies vis@[#[trigger] v.nodes[i].children[k].id()] by {
                assert(!stack@.contains(NodeIdx(i as usize)));
            }
        }
        (vis, pred, dist)
    }

    /// The cycle through `x` that a search below `x` found: `x`, then the
    /// nodes through which the search reached `x` again, in order.
    fn cycle_path(&self, x: NodeIdx, vis: &Vec<bool>, pred: &Vec<NodeIdx>, dist: &Vec<usize>) -> (r: Vec<NodeIdx>)
        requires
            self.wf(),
            self@.has(x),
            search_ok(self@, x, vis@, pred@, dist@),
            vis@[x.id()],
        ensures
            is_cycle(self@, r@),
            r@[0] == x,
    {
        let ghost v = self@;
        let mut rev: Vec<NodeIdx> = Vec::new();
        rev.push(x);
        let mut cur = x;
        loop
            invariant_except_break
                rev@.last() == cur,
                v.has(cur),
                vis@[cur.id()],
            invariant
                v == self@,
                search_ok(v, x, vis@, pred@, dist@),
                rev@.len() >= 1,
                rev@[0] == x,
                forall|k: int| 0 <= k < rev@.len() ==> v.has(#[trigger] rev@[k]),
                forall|k: int| 0 <= k < rev@.len() - 1 ==> v.node(#[trigger] rev@[k + 1]).children.contains(rev@[k]),
            ensures
                rev@.len() >= 2,
                rev@[0] == x,
                rev@.last() == x,
                forall|k: int| 0 <= k < rev@.len() ==> v.has(#[trigger] rev@[k]),
                forall|k: int| 0 <= k < rev@.len() - 1 ==> v.node(#[trigger] rev@[k + 1]).children.contains(rev@[k]),
            decreases dist@[cur.id()],
        {
            assert(reached_from(v, x, pred@, dist@, cur.id()));
            assert(NodeIdx(cur.id() as usize) == cur);
            let u = pred[cur.0];
            let ghost r0 = rev@;
            rev.push(u);
            proof {
                assert forall|k: int| 0 <= k < rev@.len() - 1 implies v.node(#[trigger] rev@[k + 1]).children.contains(rev@[k]) by {
                    if k < r0.len() - 1 {
                        assert(rev@[k + 1] == r0[k + 1]);
                        assert(rev@[k] == r0[k]);
                    } else {
                        assert(rev@[k] == cur);
                        assert(rev@[k + 1] == u);
                    }
                }
            }
            if dist[cur.0] == 1 {
                break;
            }
            cur = u;
        }
        let mut path: Vec<NodeIdx> = Vec::new();
        let mut k: usize = rev.len();
        while k > 0
            invariant
                0 <= k <= rev@.len(),
                path@.len() == rev@.len() - k,
                forall|j: int| 0 <= j < path@.len() ==> path@[j] == rev@[rev@.len() - 1 - j],
            decreases k,
        {
            k = k - 1;
            path.push(rev[k]);
        }
        proof {
            let l = rev@.len();
            assert forall|i: int| 0 <= i < path@.len() - 1 implies v.node(#[trigger] path@[i]).children.contains(
                path@[i + 1],
            ) by {
                assert(path@[i] == rev@[l - 1 - i]);
                assert(path@[i + 1] == rev@[l - 2 - i]);
                assert(rev@[(l - 2 - i) + 1] == rev@[l - 1 - i]);
            }
            assert forall|i: int| 0 <= i < path@.len() implies v.has(#[trigger] path@[i]) by {
                assert(path@[i] == rev@[l - 1 - i]);
            }
            assert(path@[0] == rev@[l - 1]);
            assert(path@[path@.len() - 1] == rev@[0]);
        }
        path
    }

    /// Ensure that `self` contains no cycles: return an error with a cycle,
    /// a path along child edges that ends where it starts, if there is one.
    pub fn ensure_no_cycles(&self) -> (r: Result<()>)
        requires
            self.wf(),
        ensures
            match r {
                Ok(()) => !has_cycle(self@),
                Err(e) => e matches Error::CycleDetected { path } && is_cycle(self@, path@),
            },
    {
        let n = self.nodes.len();
        let mut i: usize = 0;
        while i < n
            invariant
                n == self@.nodes.len(),
                self.wf(),
                0 <= i <= n,
                forall|p: Seq<NodeIdx>| #[trigger] is_cycle(self@, p) ==> p[0].id() >= i,
            decreases n - i,
        {
            let (vis, pred, dist) = self.reach_below(NodeIdx(i));
            if vis[i] {
                let path = self.cycle_path(NodeIdx(i), &vis, &pred, &dist);
                return Err(Error::CycleDetected { path });
            }
            proof {
                lemma_no_cycle_through(self@, NodeIdx(i), vis@, pred@, dist@);
                assert forall|p: Seq<NodeIdx>| #[trigger] is_cycle(self@, p) implies p[0].id() >= i + 1 by {
                    if p[0].id() == i {
                        assert(p[0] == NodeIdx(i));
                    }
                }
            }
            i = i + 1;
        }
        proof {
            if has_cycle(self@) {
                let p = choose|p: Seq<NodeIdx>| #[trigger] is_cycle(self@, p);
                assert(self@.has(p[0]));
            }
        }
        Ok(())
    }
}

/// Every entry of `add_unique(s, xs)` is an entry of `s` at the same
/// position, or an entry of `xs`.
pub proof fn lemma_add_unique_in(s: Seq<NodeIdx>, xs: Seq<NodeIdx>, k: int)
    requires
        0 <= k < add_unique(s, xs).len(),
    ensures
        k < s.len() ==> add_unique(s, xs)[k] == s[k],
        k >= s.len() ==> xs.contains(add_unique(s, xs)[k]),
        add_unique(s, xs).len() >= s.len(),
    decreases xs.len(),
{
    if xs.len() > 0 {
        let t = add_unique(s, xs.drop_last());
        lemma_add_unique_len(s, xs.drop_last());
        if k < t.len() {
            lemma_add_unique_in(s, xs.drop_last(), k);
            if k >= s.len() {
                let j = choose|j: int| 0 <= j < xs.drop_last().len() && xs.drop_last()[j] == t[k];
                assert(xs[j] == t[k]);
            }
        } else {
            assert(xs[xs.len() - 1] == xs.last());
        }
    }
}

/// `add_unique` only appends.
pub proof fn lemma_add_unique_len(s: Seq<NodeIdx>, xs: Seq<NodeIdx>)
    ensures
        add_unique(s, xs).len() >= s.len(),
    decreases xs.len(),
{
    if xs.len() > 0 {
        lemma_add_unique_len(s, xs.drop_last());
    }
}

/// `y` is a cleared slot of `v`: queued as garbage, without parents or
/// children, in layer 0.
pub open spec fn is_cleared<D>(v: DagView<D>, y: NodeIdx) -> bool {
    &&& v.node(y).parents.len() == 0
    &&& v.node(y).children.len() == 0
    &&& v.node(y).layer == 0
    &&& v.garbage.contains(y)
}

/// Stripping anything from an empty list leaves it empty.
proof fn lemma_strip_empty(xs: Seq<NodeIdx>)
    ensures
        strip(Seq::<NodeIdx>::empty(), xs).len() == 0,
    decreases xs.len(),
{
    if xs.len() > 0 {
        lemma_strip_empty(xs.drop_last());
        let y = xs.last();
        broadcast use vstd::seq_lib::group_filter_ensures;
        assert(strip(Seq::<NodeIdx>::empty(), xs.drop_last()).filter(|z: NodeIdx| z != y).len() <= 0);
    }
}

/// Taking `x` off the children of the nodes of `ps` keeps the slots, the
/// garbage queue, and the parents, layer and data of every node, and keeps
/// a node without children so.
proof fn lemma_disown_keeps<D>(v: DagView<D>, ps: Seq<NodeIdx>, x: NodeIdx, y: NodeIdx)
    requires
        v.has(y),
        forall|j: int| 0 <= j < ps.len() ==> v.has(#[trigger] ps[j]),
    ensures
        v.disown_by(ps, x).nodes.len() == v.nodes.len(),
        v.disown_by(ps, x).garbage == v.garbage,
        v.disown_by(ps, x).node(y).parents == v.node(y).parents,
        v.disown_by(ps, x).node(y).layer == v.node(y).layer,
        v.disown_by(ps, x).node(y).data == v.node(y).data,
        v.node(y).children.len() == 0 ==> v.disown_by(ps, x).node(y).children.len() == 0,
    decreases ps.len(),
{
    if ps.len() > 0 {
        let t = ps.drop_last();
        assert forall|j: int| 0 <= j < t.len() implies v.has(#[trigger] t[j]) by {
            assert(t[j] == ps[j]);
        }
        assert(v.has(ps[ps.len() - 1]));
        lemma_disown_keeps(v, t, x, y);
        let w = v.disown_by(ps.drop_last(), x);
        if ps.last() == y && w.node(y).children.len() == 0 {
            assert(w.node(y).children =~= Seq::<NodeIdx>::empty());
            lemma_strip_empty(seq![x]);
        }
    }
}

/// When the steps of `remove_subdag` all succeed, with default data, every
/// node they recycle ends cleared, holding default data.
pub proof fn lemma_recycle_steps_cleared<D: Default>(v: DagView<D>, xs: Seq<NodeIdx>, dvs: Seq<D>)
    requires
        v.wf(),
        forall|k: int| 0 <= k < xs.len() ==> v.has(#[trigger] xs[k]),
        forall|k: int| 0 <= k < dvs.len() ==> #[trigger] is_default(dvs[k]),
        dvs.len() >= xs.len(),
    ensures
        v.recycle_steps(xs, dvs).0.wf(),
        v.recycle_steps(xs, dvs).0.nodes.len() == v.nodes.len(),
        v.recycle_steps(xs, dvs).1 is None ==> forall|k: int|
            0 <= k < xs.len() ==> is_cleared(v.recycle_steps(xs, dvs).0, #[trigger] xs[k]) && is_default(
                v.recycle_steps(xs, dvs).0.node(xs[k]).data,
            ),
    decreases xs.len(),
{
    if xs.len() > 0 {
        let t = xs.drop_last();
        let n = xs.len() - 1;
        assert forall|k: int| 0 <= k < t.len() implies v.has(#[trigger] t[k]) by {
            assert(t[k] == xs[k]);
        }
        lemma_recycle_steps_cleared(v, t, dvs);
        let (w, failed, done) = v.recycle_steps(t, dvs);
        let x = xs.last();
        assert(xs[n] == x);
        assert(w.has(x));
        let ps = w.node(x).parents;
        let dv = dvs[n];
        let w1 = w.disown_by(ps, x);
        let nx = DagNodeView { layer: 0, parents: Seq::empty(), children: Seq::empty(), data: dv, ..w1.node(x) };
        let w2 = w1.with_node(x, nx);
        assert(w.in_range(w.nodes[x.id()]));
        lemma_disown_keeps(w, ps, x, x);
        lemma_disown_by(w, ps, x);
        lemma_with_node_wf(w1, x, nx);
        lemma_enqueue_one(w2.garbage, x);
        if failed is None && w.node(x).children.len() == 0 {
            let u = w.recycled(x, dv);
            assert(v.recycle_steps(xs, dvs).0 == u);
            assert forall|k: int| 0 <= k < u.garbage.len() implies u.has(#[trigger] u.garbage[k]) by {
                assert(u.garbage.contains(u.garbage[k]));
                if u.garbage[k] != x {
                    let m = choose|m: int| 0 <= m < w2.garbage.len() && w2.garbage[m] == u.garbage[k];
                    assert(w2.has(w2.garbage[m]));
                }
            }
            assert(u.wf());
            assert forall|k: int| 0 <= k < xs.len() implies is_cleared(u, #[trigger] xs[k]) && is_default(
                u.node(xs[k]).data,
            ) by {
                let y = xs[k];
                if y != x {
                    assert(t[k] == y);
                    assert(w.has(y));
                    lemma_disown_keeps(w, ps, x, y);
                    assert(u.node(y) == w1.node(y));
                    assert(w.garbage.contains(y));
                    assert(u.garbage.contains(y));
                }
            }
        }
    }
}

/// Filtering by two predicates in turn filters by both at once.
proof fn lemma_filter_filter(s: Seq<NodeIdx>, p: spec_fn(NodeIdx) -> bool, q: spec_fn(NodeIdx) -> bool)
    ensures
        s.filter(p).filter(q) == s.filter(|y: NodeIdx| p(y) && q(y)),
    decreases s.len(),
{
    let pq = |y: NodeIdx| p(y) && q(y);
    if s.len() == 0 {
        assert(s.filter(p) =~= Seq::<NodeIdx>::empty()) by {
            broadcast use vstd::seq_lib::group_filter_ensures;
        }
        assert(s.filter(pq) =~= Seq::<NodeIdx>::empty()) by {
            broadcast use vstd::seq_lib::group_filter_ensures;
        }
        assert(s.filter(p).filter(q) =~= Seq::<NodeIdx>::empty()) by {
            broadcast use vstd::seq_lib::group_filter_ensures;
        }
    } else {
        let t = s.drop_last();
        let y = s.last();
        lemma_filter_filter(t, p, q);
        assert(s =~= t.push(y));
        t.lemma_filter_push(y, p);
        t.lemma_filter_push(y, pq);
        if p(y) {
            t.filter(p).lemma_filter_push(y, q);
        }
    }
}

/// Stripping the indices of `xs` one after the other keeps the entries of
/// `s` that are none of them, in order: one filter by membership.
pub proof fn lemma_strip_is_filter(s: Seq<NodeIdx>, xs: Seq<NodeIdx>)
    ensures
        strip(s, xs) == s.filter(|y: NodeIdx| !xs.contains(y)),
    decreases xs.len(),
{
    if xs.len() == 0 {
        lemma_filter_all(s, |y: NodeIdx| !xs.contains(y));
    } else {
        let t = xs.drop_last();
        let x = xs.last();
        let p = |y: NodeIdx| !t.contains(y);
        let q = |y: NodeIdx| y != x;
        let r = |y: NodeIdx| !xs.contains(y);
        lemma_strip_is_filter(s, t);
        assert(strip(s, t) == s.filter(p));
        assert((|y: NodeIdx| y != xs.last()) =~= q);
        assert(strip(s, xs) == strip(s, xs.drop_last()).filter(|y: NodeIdx| y != xs.last()));
        assert(strip(s, xs) == strip(s, t).filter(q));
        lemma_filter_filter(s, p, q);
        assert forall|y: NodeIdx| #[trigger] r(y) == (p(y) && q(y)) by {
            if xs.contains(y) && y != x {
                let k = choose|k: int| 0 <= k < xs.len() && xs[k] == y;
                assert(t[k] == y);
            }
            if t.contains(y) {
                let k = choose|k: int| 0 <= k < t.len() && t[k] == y;
                assert(xs[k] == y);
            }
            if y == x {
                assert(xs[xs.len() - 1] == y);
            }
        }
        assert((|y: NodeIdx| p(y) && q(y)) =~= r);
    }
}

/// Every slot queued as garbage is cleared, as recycling leaves it: without
/// parents or children, in layer 0, with default data.
pub open spec fn garbage_cleared<D: Default>(v: DagView<D>) -> bool {
    forall|k: int|
        0 <= k < v.garbage.len() ==> {
            &&& v.node(#[trigger] v.garbage[k]).parents.len() == 0
            &&& v.node(v.garbage[k]).children.len() == 0
            &&& v.node(v.garbage[k]).layer == 0
            &&& is_default(v.node(v.garbage[k]).data)
        }
}

/// Recycling a node with default data keeps every garbage slot cleared.
pub proof fn lemma_recycled_keeps_cleared<D: Default>(w: DagView<D>, x: NodeIdx, dv: D)
    requires
        w.wf(),
        w.has(x),
        is_default(dv),
        garbage_cleared(w),
    ensures
        garbage_cleared(w.recycled(x, dv)),
{
    let ps = w.node(x).parents;
    let w1 = w.disown_by(ps, x);
    let nx = DagNodeView { layer: 0, parents: Seq::empty(), children: Seq::empty(), data: dv, ..w1.node(x) };
    let w2 = w1.with_node(x, nx);
    let u = w.recycled(x, dv);
    assert(w.in_range(w.nodes[x.id()]));
    lemma_disown_keeps(w, ps, x, x);
    lemma_enqueue_one(w2.garbage, x);
    assert forall|k: int| 0 <= k < u.garbage.len() implies {
        &&& u.node(#[trigger] u.garbage[k]).parents.len() == 0
        &&& u.node(u.garbage[k]).children.len() == 0
        &&& u.node(u.garbage[k]).layer == 0
        &&& is_default(u.node(u.garbage[k]).data)
    } by {
        let g = u.garbage[k];
        assert(u.garbage.contains(g));
        if g != x {
            let m = choose|m: int| 0 <= m < w.garbage.len() && w.garbage[m] == g;
            assert(w.has(w.garbage[m]));
            lemma_disown_keeps(w, ps, x, g);
            assert(u.node(g) == w1.node(g));
            assert(is_default(w.node(w.garbage[m]).data));
        }
    }
}

/// Adding a node to a DAG whose garbage slots are cleared gives it default
/// data, the given parents (each once, in order) and no children unless it
/// is among its own parents; with parents that are not garbage, every
/// garbage slot stays cleared.
pub proof fn lemma_added_cleared<D: Default>(v: DagView<D>, ps: Seq<NodeIdx>, w: DagView<D>, x: NodeIdx)
    requires
        v.wf(),
        garbage_cleared(v),
        forall|k: int| 0 <= k < ps.len() ==> (#[trigger] ps[k]).id() < v.slots_after_add(),
        (w, x) == v.added(w.node(x).data, ps),
        v.garbage.len() == 0 ==> is_default(w.node(x).data),
    ensures
        is_default(w.node(x).data),
        w.node(x).parents == add_unique(Seq::empty(), ps),
        !ps.contains(x) ==> w.node(x).children.len() == 0,
        (forall|k: int| 0 <= k < ps.len() ==> !v.garbage.contains(#[trigger] ps[k])) ==> garbage_cleared(w),
        ps.len() == 0 ==> w.roots == v.roots.push(x),
        forall|y: NodeIdx|
            #![trigger w.node(y)]
            v.has(y) && y != x && !ps.contains(y) ==> w.node(y) == v.node(y),
        forall|y: NodeIdx| #[trigger] w.garbage.contains(y) ==> v.garbage.contains(y) && y != x,
{
    let d = w.node(x).data;
    let (v1, x1) = v.take_slot(d);
    assert(x1 == x);
    if v.garbage.len() > 0 {
        assert(v.has(v.garbage[0]));
        assert(v.garbage[0] == x);
    }
    assert(v1.node(x).parents.len() == 0);
    assert(v1.node(x).parents =~= Seq::<NodeIdx>::empty());
    let pu = add_unique(v1.node(x).parents, ps);
    let v2 = v1.with_node(x, DagNodeView { parents: pu, ..v1.node(x) });
    let v3 = if pu.len() == 0 {
        DagView { roots: v2.roots.push(x), ..v2 }
    } else {
        v2
    };
    assert forall|j: int| 0 <= j < pu.len() implies v3.has(#[trigger] pu[j]) by {
        lemma_add_unique_in(v1.node(x).parents, ps, j);
        let k = choose|k: int| 0 <= k < ps.len() && ps[k] == pu[j];
    }
    lemma_adopt_by_layers(v3, pu, x);
    let v4 = v3.adopt_by(pu, x);
    assert(v3.has(x));
    assert(w == v4.with_node(x, DagNodeView { layer: v4.layer_below(pu) as usize, ..v4.node(x) }));
    if v.garbage.len() > 0 {
        assert(v.node(v.garbage[0]).children.len() == 0);
        assert(is_default(v.node(v.garbage[0]).data));
    }
    if !ps.contains(x) {
        if pu.contains(x) {
            let j = choose|j: int| 0 <= j < pu.len() && pu[j] == x;
            lemma_add_unique_in(v1.node(x).parents, ps, j);
        }
        assert(v4.node(x) == v3.node(x));
    }
    if ps.len() == 0 {
        assert(pu == v1.node(x).parents);
    }
    assert forall|y: NodeIdx| #![trigger w.node(y)] v.has(y) && y != x && !ps.contains(y) implies w.node(y) == v.node(
        y,
    ) by {
        if pu.contains(y) {
            let j = choose|j: int| 0 <= j < pu.len() && pu[j] == y;
            lemma_add_unique_in(v1.node(x).parents, ps, j);
        }
        assert(v3.has(y));
        assert(v4.node(y) == v3.node(y));
        assert(v1.node(y) == v.node(y));
    }
    assert forall|y: NodeIdx| #[trigger] w.garbage.contains(y) implies v.garbage.contains(y) && y != x by {
        let k = choose|k: int| 0 <= k < w.garbage.len() && w.garbage[k] == y;
        if v.garbage.len() > 0 {
            assert(v.garbage[k + 1] == y);
            assert(v.garbage[0] == x);
        } else {
            assert(v.garbage[k] == y);
            assert(v.has(v.garbage[k]));
        }
    }
    if forall|k: int| 0 <= k < ps.len() ==> !v.garbage.contains(#[trigger] ps[k]) {
        assert forall|k: int| 0 <= k < w.garbage.len() implies {
            &&& w.node(#[trigger] w.garbage[k]).parents.len() == 0
            &&& w.node(w.garbage[k]).children.len() == 0
            &&& w.node(w.garbage[k]).layer == 0
            &&& is_default(w.node(w.garbage[k]).data)
        } by {
            let g = w.garbage[k];
            let m = if v.garbage.len() > 0 {
                k + 1
            } else {
                k
            };
            assert(v.garbage[m] == g);
            assert(v.has(v.garbage[m]));
            assert(g != x) by {
                if v.garbage.len() > 0 {
                    assert(v.garbage[0] == x);
                }
            }
            if pu.contains(g) {
                let j = choose|j: int| 0 <= j < pu.len() && pu[j] == g;
                lemma_add_unique_in(v1.node(x).parents, ps, j);
                let i = choose|i: int| 0 <= i < ps.len() && ps[i] == g;
                assert(v.garbage.contains(ps[i]));
            }
            assert(v3.has(g));
            assert(v4.node(g) == v3.node(g));
            assert(v1.node(g) == v.node(g));
        }
    }
}

/// When no node of `xs` has parents, the first of them that has is none.
proof fn lemma_first_non_root_none<D>(v: DagView<D>, xs: Seq<NodeIdx>)
    requires
        v.first_non_root(xs) is None,
    ensures
        forall|k: int| 0 <= k < xs.len() ==> v.node(#[trigger] xs[k]).parents.len() == 0,
    decreases xs.len(),
{
    if xs.len() > 0 {
        lemma_first_non_root_none(v, xs.drop_first());
        assert forall|k: int| 0 <= k < xs.len() implies v.node(#[trigger] xs[k]).parents.len() == 0 by {
            if k > 0 {
                assert(xs.drop_first()[k - 1] == xs[k]);
            }
        }
    }
}

/// What `merge_subdags` makes of a DAG whose garbage slots are cleared,
/// merging nodes that are not garbage: the new parent holds `pd`, has no
/// parents, has the merged nodes as children (each once, in order) and is
/// the last root; each merged node has it as its one parent; and every
/// garbage slot stays cleared.
proof fn lemma_merge_cleared<D: Default>(
    v0: DagView<D>,
    va: DagView<D>,
    vb: DagView<D>,
    p: NodeIdx,
    pd: D,
    cs: Seq<NodeIdx>,
)
    requires
        v0.wf(),
        va.wf(),
        (va, p) == v0.added(va.node(p).data, Seq::empty()),
        v0.garbage.len() == 0 ==> is_default(va.node(p).data),
        va.has(p),
        vb == va.with_node(p, DagNodeView { data: pd, ..va.node(p) }),
        forall|k: int| 0 <= k < cs.len() ==> v0.has(#[trigger] cs[k]),
        v0.first_non_root(cs) is None,
    ensures
        garbage_cleared(v0) && (forall|k: int| 0 <= k < cs.len() ==> !v0.garbage.contains(#[trigger] cs[k])) ==> {
            let f = vb.merged(p, cs);
            &&& f.roots == v0.roots.push(p)
            &&& f.node(p).data == pd
            &&& f.node(p).parents.len() == 0
            &&& f.node(p).children == add_unique(Seq::empty(), cs)
            &&& forall|k: int| 0 <= k < cs.len() ==> f.node(#[trigger] cs[k]).parents == seq![p]
            &&& garbage_cleared(f)
        },
{
    if garbage_cleared(v0) && (forall|k: int| 0 <= k < cs.len() ==> !v0.garbage.contains(#[trigger] cs[k])) {
        lemma_added_cleared(v0, Seq::empty(), va, p);
        lemma_first_non_root_none(v0, cs);
        assert(add_unique(Seq::<NodeIdx>::empty(), Seq::<NodeIdx>::empty()) == Seq::<NodeIdx>::empty());
        assert(!cs.contains(p)) by {
            if cs.contains(p) {
                let k = choose|k: int| 0 <= k < cs.len() && cs[k] == p;
                assert(v0.has(cs[k]));
                if v0.garbage.len() > 0 {
                    assert(v0.garbage[0] == p);
                    assert(v0.garbage.contains(cs[k]));
                }
            }
        }
        assert forall|k: int| 0 <= k < cs.len() implies vb.has(#[trigger] cs[k]) by {
            assert(v0.has(cs[k]));
        }
        lemma_merged_lists(vb, p, cs);
        let f = vb.merged(p, cs);
        assert(!Seq::<NodeIdx>::empty().contains(p));
        assert(va.node(p).children.len() == 0);
        assert(vb.node(p).children =~= Seq::<NodeIdx>::empty());
        assert(seq![p].drop_last() =~= Seq::<NodeIdx>::empty());
        assert(seq![p].last() == p);
        assert(add_unique(Seq::<NodeIdx>::empty(), seq![p]) =~= seq![p]);
        assert forall|k: int| 0 <= k < cs.len() implies f.node(#[trigger] cs[k]).parents == seq![p] by {
            let c = cs[k];
            assert(v0.has(c));
            assert(cs.contains(c));
            assert(c != p);
            assert(va.node(c) == v0.node(c));
            assert(vb.node(c) == va.node(c));
            assert(v0.node(c).parents.len() == 0);
            assert(vb.node(c).parents =~= Seq::<NodeIdx>::empty());
        }
        assert forall|k: int| 0 <= k < f.garbage.len() implies {
            &&& f.node(#[trigger] f.garbage[k]).parents.len() == 0
            &&& f.node(f.garbage[k]).children.len() == 0
            &&& f.node(f.garbage[k]).layer == 0
            &&& is_default(f.node(f.garbage[k]).data)
        } by {
            let g = f.garbage[k];
            assert(va.garbage[k] == g);
            assert(va.garbage.contains(g));
            assert(v0.garbage.contains(g) && g != p);
            assert(va.has(va.garbage[k]));
            if cs.contains(g) {
                let j = choose|j: int| 0 <= j < cs.len() && cs[j] == g;
                assert(!v0.garbage.contains(cs[j]));
            }
            assert(f.node(g) == vb.node(g));
            assert(vb.node(g) == va.node(g));
        }
    }
}

/// Adding `x` once more to a list that holds it changes nothing.
proof fn lemma_add_unique_again(s: Seq<NodeIdx>, x: NodeIdx)
    ensures
        add_unique(s, seq![x]).contains(x),
        add_unique(add_unique(s, seq![x]), seq![x]) == add_unique(s, seq![x]),
{
    assert(seq![x].drop_last() =~= Seq::<NodeIdx>::empty());
    assert(seq![x].last() == x);
    assert(add_unique(s, Seq::<NodeIdx>::empty()) == s);
    let t = add_unique(s, seq![x]);
    assert(add_unique(t, Seq::<NodeIdx>::empty()) == t);
    if !s.contains(x) {
        assert(t[s.len() as int] == x);
    }
}

/// What `merge_subdags` does to the lists of the nodes: the new parent
/// `p` gets the merged nodes as children, in order and each once, every
/// merged node gets `p` as a parent once, and nothing else changes.
pub proof fn lemma_merged_lists<D>(v: DagView<D>, p: NodeIdx, cs: Seq<NodeIdx>)
    requires
        v.has(p),
        forall|k: int| 0 <= k < cs.len() ==> v.has(#[trigger] cs[k]),
        !cs.contains(p),
    ensures
        v.merged(p, cs).nodes.len() == v.nodes.len(),
        v.merged(p, cs).roots == v.roots,
        v.merged(p, cs).garbage == v.garbage,
        v.merged(p, cs).node(p) == (DagNodeView { children: add_unique(v.node(p).children, cs), ..v.node(p) }),
        forall|x: NodeIdx|
            #![trigger v.merged(p, cs).node(x)]
            v.has(x) && x != p ==> v.merged(p, cs).node(x) == if cs.contains(x) {
                DagNodeView { parents: add_unique(v.node(x).parents, seq![p]), ..v.node(x) }
            } else {
                v.node(x)
            },
    decreases cs.len(),
{
    if cs.len() > 0 {
        let t = cs.drop_last();
        let c = cs.last();
        assert(cs[cs.len() - 1] == c);
        assert forall|k: int| 0 <= k < t.len() implies v.has(#[trigger] t[k]) by {
            assert(t[k] == cs[k]);
        }
        assert(!t.contains(p)) by {
            if t.contains(p) {
                let k = choose|k: int| 0 <= k < t.len() && t[k] == p;
                assert(cs[k] == p);
            }
        }
        lemma_merged_lists(v, p, t);
        let w = v.merged(p, t);
        let w1 = w.with_node(p, DagNodeView { children: add_unique(w.node(p).children, seq![c]), ..w.node(p) });
        let r = w1.with_node(c, DagNodeView { parents: add_unique(w1.node(c).parents, seq![p]), ..w1.node(c) });
        assert(r == v.merged(p, cs));
        assert(c != p);
        assert(seq![c].drop_last() =~= Seq::<NodeIdx>::empty());
        assert(seq![c].last() == c);
        assert(add_unique(w.node(p).children, Seq::<NodeIdx>::empty()) == w.node(p).children);
        assert(add_unique(w.node(p).children, seq![c]) == add_unique(v.node(p).children, cs));
        assert(r.node(p) == (DagNodeView { children: add_unique(v.node(p).children, cs), ..v.node(p) }));
        assert forall|x: NodeIdx| #![trigger r.node(x)] v.has(x) && x != p implies r.node(x) == if cs.contains(x) {
            DagNodeView { parents: add_unique(v.node(x).parents, seq![p]), ..v.node(x) }
        } else {
            v.node(x)
        } by {
            assert(w.node(x) == if t.contains(x) {
                DagNodeView { parents: add_unique(v.node(x).parents, seq![p]), ..v.node(x) }
            } else {
                v.node(x)
            });
            if x == c {
                lemma_add_unique_again(v.node(x).parents, p);
                assert(cs.contains(x));
            } else {
                assert(r.node(x) == w.node(x));
                assert(cs.contains(x) == t.contains(x)) by {
                    if cs.contains(x) {
                        let k = choose|k: int| 0 <= k < cs.len() && cs[k] == x;
                        assert(k < t.len());
                        assert(t[k] == x);
                    }
                    if t.contains(x) {
                        let k = choose|k: int| 0 <= k < t.len() && t[k] == x;
                        assert(cs[k] == x);
                    }
                }
            }
        }
    }
}

/// Adopting a node changes no layer, and keeps the slots.
proof fn lemma_adopt_by_layers<D>(v: DagView<D>, ps: Seq<NodeIdx>, x: NodeIdx)
    requires
        forall|j: int| 0 <= j < ps.len() ==> v.has(#[trigger] ps[j]),
    ensures
        v.adopt_by(ps, x).nodes.len() == v.nodes.len(),
        v.adopt_by(ps, x).roots == v.roots,
        v.adopt_by(ps, x).garbage == v.garbage,
        forall|y: NodeIdx| v.has(y) ==> (#[trigger] v.adopt_by(ps, x).node(y)).layer == v.node(y).layer
            && v.adopt_by(ps, x).node(y).parents == v.node(y).parents && v.adopt_by(ps, x).node(y).data
            == v.node(y).data && v.adopt_by(ps, x).node(y).idx == v.node(y).idx,
        forall|y: NodeIdx| #![trigger v.adopt_by(ps, x).node(y)]
            v.has(y) && !ps.contains(y) ==> v.adopt_by(ps, x).node(y) == v.node(y),
    decreases ps.len(),
{
    if ps.len() > 0 {
        let t = ps.drop_last();
        assert forall|j: int| 0 <= j < t.len() implies v.has(#[trigger] t[j]) by {
            assert(t[j] == ps[j]);
        }
        lemma_adopt_by_layers(v, t, x);
        assert(v.has(ps[ps.len() - 1]));
        let w = v.adopt_by(t, x);
        let p = ps.last();
        let n = DagNodeView { children: add_unique(w.node(p).children, seq![x]), ..w.node(p) };
        assert(v.adopt_by(ps, x) == w.with_node(p, n));
        assert forall|y: NodeIdx| v.has(y) implies (#[trigger] v.adopt_by(ps, x).node(y)).layer == v.node(
            y,
        ).layer && v.adopt_by(ps, x).node(y).parents == v.node(y).parents && v.adopt_by(ps, x).node(y).data
            == v.node(y).data && v.adopt_by(ps, x).node(y).idx == v.node(y).idx by {
            assert(w.node(y).layer == v.node(y).layer);
            assert(w.node(p).layer == v.node(p).layer);
            if y.id() == p.id() {
                assert(y == p);
            }
        }
        assert forall|y: NodeIdx| #![trigger v.adopt_by(ps, x).node(y)]
            v.has(y) && !ps.contains(y) implies v.adopt_by(ps, x).node(y) == v.node(y) by {
            if t.contains(y) {
                let j = choose|j: int| 0 <= j < t.len() && t[j] == y;
                assert(ps[j] == y);
            }
            assert(ps[ps.len() - 1] == p);
            assert(y != p);
            assert(w.node(y) == v.node(y));
        }
    }
}

/// Replacing an allocated node by one whose edges are in range keeps a
/// DAG well-formed.
pub proof fn lemma_with_node_wf<D>(v: DagView<D>, y: NodeIdx, n: DagNodeView<D>)
    requires
        v.wf(),
        v.has(y),
        v.in_range(n),
    ensures
        v.with_node(y, n).wf(),
{
    let w = v.with_node(y, n);
    assert forall|i: int| 0 <= i < w.nodes.len() implies w.in_range(#[trigger] w.nodes[i]) by {
        if i != y.id() {
            assert(v.in_range(v.nodes[i]));
        }
    }
}

/// Adopting an allocated node by allocated nodes keeps a DAG well-formed.
pub proof fn lemma_adopt_by_wf<D>(v: DagView<D>, ps: Seq<NodeIdx>, x: NodeIdx)
    requires
        v.wf(),
        v.has(x),
        forall|j: int| 0 <= j < ps.len() ==> v.has(#[trigger] ps[j]),
    ensures
        v.adopt_by(ps, x).wf(),
    decreases ps.len(),
{
    if ps.len() > 0 {
        let t = ps.drop_last();
        assert forall|j: int| 0 <= j < t.len() implies v.has(#[trigger] t[j]) by {
            assert(t[j] == ps[j]);
        }
        lemma_adopt_by_wf(v, t, x);
        lemma_adopt_by_layers(v, t, x);
        let w = v.adopt_by(t, x);
        let p = ps.last();
        assert(v.has(ps[ps.len() - 1]));
        let n = DagNodeView { children: add_unique(w.node(p).children, seq![x]), ..w.node(p) };
        assert(w.in_range(w.nodes[p.id()]));
        assert forall|k: int| 0 <= k < n.children.len() implies w.has(#[trigger] n.children[k]) by {
            lemma_add_unique_in(w.node(p).children, seq![x], k);
        }
        lemma_with_node_wf(w, p, n);
    }
}

/// Each step of `add_node` keeps a DAG well-formed.
proof fn lemma_added_wf<D>(
    v0: DagView<D>,
    v1: DagView<D>,
    v3: DagView<D>,
    v4: DagView<D>,
    f: DagView<D>,
    x: NodeIdx,
    ps: Seq<NodeIdx>,
)
    requires
        v0.wf(),
        v1.nodes.len() <= usize::MAX,
        (v1, x) == v0.take_slot(v1.node(x).data),
        forall|j: int| 0 <= j < ps.len() ==> v1.has(#[trigger] ps[j]),
        v3 == ({
            let v2 = v1.with_node(x, DagNodeView { parents: ps, ..v1.node(x) });
            if ps.len() == 0 {
                DagView { roots: v2.roots.push(x), ..v2 }
            } else {
                v2
            }
        }),
        v4 == v3.adopt_by(ps, x),
        f == v4.with_node(x, DagNodeView { layer: v4.layer_below(ps) as usize, ..v4.node(x) }),
    ensures
        f.wf(),
{
    assert(v1.has(x));
    assert(v1.wf()) by {
        if v0.garbage.len() > 0 {
            assert forall|k: int| 0 <= k < v1.garbage.len() implies v1.has(#[trigger] v1.garbage[k]) by {
                assert(v1.garbage[k] == v0.garbage[k + 1]);
            }
            assert forall|i: int| 0 <= i < v1.nodes.len() implies v1.in_range(#[trigger] v1.nodes[i]) by {
                assert(v0.in_range(v0.nodes[i]));
            }
        } else {
            assert forall|i: int| 0 <= i < v1.nodes.len() implies v1.in_range(#[trigger] v1.nodes[i]) by {
                if i < v0.nodes.len() {
                    assert(v0.in_range(v0.nodes[i]));
                    assert(v1.nodes[i] == v0.nodes[i]);
                }
            }
        }
    }
    let n2 = DagNodeView { parents: ps, ..v1.node(x) };
    assert(v1.in_range(v1.nodes[x.id()]));
    lemma_with_node_wf(v1, x, n2);
    let v2 = v1.with_node(x, n2);
    assert(v3.wf());
    assert forall|j: int| 0 <= j < ps.len() implies v3.has(#[trigger] ps[j]) by {
        assert(v1.has(ps[j]));
    }
    lemma_adopt_by_wf(v3, ps, x);
    lemma_adopt_by_layers(v3, ps, x);
    assert(v4.in_range(v4.nodes[x.id()]));
    lemma_with_node_wf(v4, x, DagNodeView { layer: v4.layer_below(ps) as usize, ..v4.node(x) });
}

/// Taking a node off children keeps a DAG well-formed, and changes neither
/// parents nor the other fields of any node.
proof fn lemma_disown_by<D>(v: DagView<D>, ps: Seq<NodeIdx>, x: NodeIdx)
    requires
        v.wf(),
        forall|j: int| 0 <= j < ps.len() ==> v.has(#[trigger] ps[j]),
    ensures
        v.disown_by(ps, x).wf(),
        v.disown_by(ps, x).nodes.len() == v.nodes.len(),
        v.disown_by(ps, x).roots == v.roots,
        v.disown_by(ps, x).garbage == v.garbage,
        forall|y: NodeIdx| v.has(y) ==> (#[trigger] v.disown_by(ps, x).node(y)).parents == v.node(y).parents,
    decreases ps.len(),
{
    if ps.len() > 0 {
        let t = ps.drop_last();
        assert forall|j: int| 0 <= j < t.len() implies v.has(#[trigger] t[j]) by {
            assert(t[j] == ps[j]);
        }
        lemma_disown_by(v, t, x);
        let w = v.disown_by(t, x);
        let p = ps.last();
        assert(v.has(ps[ps.len() - 1]));
        let s = w.node(p).children;
        let n = DagNodeView { children: strip(s, seq![x]), ..w.node(p) };
        assert(strip(s, seq![x]) == s.filter(|y: NodeIdx| y != x)) by {
            let e = seq![x].drop_last();
            assert(e =~= Seq::<NodeIdx>::empty());
            assert(strip(s, e) == s);
            assert((|y: NodeIdx| y != seq![x].last()) =~= (|y: NodeIdx| y != x));
        }
        assert(w.in_range(w.nodes[p.id()]));
        assert forall|k: int| 0 <= k < n.children.len() implies w.has(#[trigger] n.children[k]) by {
            let e = n.children[k];
            assert(s.filter(|y: NodeIdx| y != x).contains(e));
            s.lemma_filter_contains_rev(|y: NodeIdx| y != x, e);
            let j = choose|j: int| 0 <= j < s.len() && s[j] == e;
            assert(w.has(s[j]));
        }
        lemma_with_node_wf(w, p, n);
        assert(v.disown_by(ps, x) == w.with_node(p, n));
        assert forall|y: NodeIdx| v.has(y) implies (#[trigger] v.disown_by(ps, x).node(y)).parents == v.node(
            y,
        ).parents by {
            assert(w.node(y).parents == v.node(y).parents);
            assert(w.node(p).parents == v.node(p).parents);
            if y.id() == p.id() {
                assert(y == p);
            }
        }
    }
}

/// Only the default data of the steps that recycle a node matter.
proof fn lemma_recycle_steps_dvs<D>(v: DagView<D>, xs: Seq<NodeIdx>, dvs: Seq<D>, dvs2: Seq<D>)
    requires
        dvs.len() <= dvs2.len(),
        forall|k: int| 0 <= k < dvs.len() ==> dvs2[k] == dvs[k],
        v.recycle_steps(xs, dvs).2 <= dvs.len(),
    ensures
        v.recycle_steps(xs, dvs2) == v.recycle_steps(xs, dvs),
    decreases xs.len(),
{
    if xs.len() > 0 {
        lemma_recycle_steps_done(v, xs.drop_last(), dvs);
        lemma_recycle_steps_dvs(v, xs.drop_last(), dvs, dvs2);
        let (w, failed, done) = v.recycle_steps(xs.drop_last(), dvs);
        if failed is None && w.node(xs.last()).children.len() == 0 {
            lemma_recycle_steps_count(v, xs.drop_last(), dvs);
            assert(xs.len() - 1 == done);
        }
    }
}

/// A run of recycling steps never recycles more nodes than it has steps.
proof fn lemma_recycle_steps_done<D>(v: DagView<D>, xs: Seq<NodeIdx>, dvs: Seq<D>)
    ensures
        v.recycle_steps(xs, dvs).2 <= xs.len(),
    decreases xs.len(),
{
    if xs.len() > 0 {
        lemma_recycle_steps_done(v, xs.drop_last(), dvs);
    }
}

/// A run of recycling steps that has not failed recycled one node per step.
proof fn lemma_recycle_steps_count<D>(v: DagView<D>, xs: Seq<NodeIdx>, dvs: Seq<D>)
    ensures
        v.recycle_steps(xs, dvs).1 is None ==> v.recycle_steps(xs, dvs).2 == xs.len(),
    decreases xs.len(),
{
    if xs.len() > 0 {
        lemma_recycle_steps_count(v, xs.drop_last(), dvs);
    }
}

/// Once a run of recycling steps has failed, later steps change nothing.
proof fn lemma_recycle_steps_stuck<D>(v: DagView<D>, xs: Seq<NodeIdx>, ys: Seq<NodeIdx>, dvs: Seq<D>)
    requires
        v.recycle_steps(xs, dvs).1 is Some,
    ensures
        v.recycle_steps(xs + ys, dvs) == v.recycle_steps(xs, dvs),
    decreases ys.len(),
{
    if ys.len() == 0 {
        assert(xs + ys =~= xs);
    } else {
        lemma_recycle_steps_stuck(v, xs, ys.drop_last(), dvs);
        assert((xs + ys).drop_last() =~= xs + ys.drop_last());
    }
}

/// `add_unique` keeps a sequence free of repetitions: parents and children
/// are recorded at most once each.
pub proof fn lemma_add_unique_no_dup(s: Seq<NodeIdx>, xs: Seq<NodeIdx>)
    requires
        s.no_duplicates(),
    ensures
        add_unique(s, xs).no_duplicates(),
        forall|k: int| 0 <= k < xs.len() ==> add_unique(s, xs).contains(#[trigger] xs[k]),
        forall|k: int| 0 <= k < s.len() ==> add_unique(s, xs).contains(#[trigger] s[k]),
    decreases xs.len(),
{
    if xs.len() > 0 {
        let t = add_unique(s, xs.drop_last());
        lemma_add_unique_no_dup(s, xs.drop_last());
        let u = add_unique(s, xs);
        assert forall|k: int| 0 <= k < xs.len() implies u.contains(#[trigger] xs[k]) by {
            if k < xs.len() - 1 {
                assert(xs.drop_last()[k] == xs[k]);
                assert(t.contains(xs[k]));
                let j = choose|j: int| 0 <= j < t.len() && t[j] == xs[k];
                if !t.contains(xs.last()) {
                    assert(u[j] == xs[k]);
                }
            } else {
                if !t.contains(xs.last()) {
                    assert(u[t.len() as int] == xs.last());
                }
            }
        }
        assert forall|k: int| 0 <= k < s.len() implies u.contains(#[trigger] s[k]) by {
            assert(t.contains(s[k]));
            let j = choose|j: int| 0 <= j < t.len() && t[j] == s[k];
            if !t.contains(xs.last()) {
                assert(u[j] == s[k]);
            }
        }
    }
}

/// A node added with parents lies one layer after its deepest parent: its
/// layer is above that of every parent and exactly one above that of some
/// parent; a node added without parents lies in layer 0 (for a node that
/// is not its own parent).
pub proof fn lemma_added_layer<D>(v: DagView<D>, dv: D, parent_idxs: Seq<NodeIdx>)
    requires
        v.wf(),
        v.can_add(parent_idxs),
    ensures
        ({
            let (w, x) = v.added(dv, parent_idxs);
            let qs = w.node(x).parents;
            !qs.contains(x) ==> {
                &&& qs.len() == 0 ==> w.node(x).layer == 0
                &&& forall|j: int| 0 <= j < qs.len() ==> w.node(#[trigger] qs[j]).layer < w.node(x).layer
                &&& qs.len() > 0 ==> exists|j: int|
                    0 <= j < qs.len() && w.node(x).layer == w.node(#[trigger] qs[j]).layer + 1
            }
        }),
{
    let (v1, x) = v.take_slot(dv);
    let ps = add_unique(v1.node(x).parents, parent_idxs);
    let v2 = v1.with_node(x, DagNodeView { parents: ps, ..v1.node(x) });
    let v3 = if ps.len() == 0 {
        DagView { roots: v2.roots.push(x), ..v2 }
    } else {
        v2
    };
    let v4 = v3.adopt_by(ps, x);
    let (w, x2) = v.added(dv, parent_idxs);
    assert(x2 == x);
    assert(v.take_slot(arbitrary()).1 == x);
    assert(v1.has(x));
    assert forall|k: int| 0 <= k < ps.len() implies v3.has(#[trigger] ps[k]) by {
        lemma_add_unique_in(v1.node(x).parents, parent_idxs, k);
        if k < v1.node(x).parents.len() {
            if v.garbage.len() > 0 {
                assert(v.has(v.garbage[0]));
                assert(v.in_range(v.nodes[x.id()]));
                assert(v.has(v.nodes[x.id()].parents[k]));
            }
        } else {
            let j = choose|j: int| 0 <= j < parent_idxs.len() && parent_idxs[j] == ps[k];
            assert(parent_idxs[j].id() < v.slots_after_add());
        }
    }
    lemma_adopt_by_layers(v3, ps, x);
    lemma_layer_below(v4, ps);
    assert(w.node(x).parents == ps);
    if !ps.contains(x) {
        assert(v4.layer_below(ps) <= usize::MAX) by {
            lemma_layer_below_max(v4, ps);
            assert forall|q: int| 0 <= q < ps.len() implies v4.node(#[trigger] ps[q]).layer < usize::MAX by {
                assert(v.new_parents(parent_idxs) == ps);
                assert(v.take_slot(arbitrary()).0.node(ps[q]).layer == v1.node(ps[q]).layer);
                assert(v1.node(v.new_parents(parent_idxs)[q]).layer < usize::MAX);
                assert(v4.node(ps[q]).layer == v3.node(ps[q]).layer);
            }
        }
        assert(w.node(x).layer == v4.layer_below(ps));
        assert forall|j: int| 0 <= j < ps.len() implies w.node(#[trigger] ps[j]).layer == v4.node(ps[j]).layer by {
            assert(ps[j] != x);
            assert(v3.has(ps[j]));
        }
        if ps.len() > 0 {
            let j = choose|j: int| 0 <= j < ps.len() && v4.layer_below(ps) == v4.node(#[trigger] ps[j]).layer + 1;
            assert(w.node(ps[j]).layer == v4.node(ps[j]).layer);
        }
    }
}

/// One more than the deepest layer of `ps` lies below each node of `ps`.
proof fn lemma_layer_below<D>(v: DagView<D>, ps: Seq<NodeIdx>)
    ensures
        forall|k: int| 0 <= k < ps.len() ==> v.layer_below(ps) > v.node(#[trigger] ps[k]).layer,
        v.layer_below(ps) >= 0,
        ps.len() == 0 ==> v.layer_below(ps) == 0,
        ps.len() > 0 ==> exists|k: int| 0 <= k < ps.len() && v.layer_below(ps) == v.node(#[trigger] ps[k]).layer + 1,
    decreases ps.len(),
{
    if ps.len() > 0 {
        lemma_layer_below(v, ps.drop_last());
        let n = ps.len() - 1;
        assert(ps.last() == ps[n]);
        if v.layer_below(ps) == v.node(ps[n]).layer + 1 {
            assert(0 <= n < ps.len() && v.layer_below(ps) == v.node(ps[n]).layer + 1);
        } else {
            let t = ps.drop_last();
            let k = choose|k: int| 0 <= k < t.len() && v.layer_below(t) == v.node(#[trigger] t[k]).layer + 1;
            assert(t[k] == ps[k]);
            assert(0 <= k < ps.len() && v.layer_below(ps) == v.node(ps[k]).layer + 1);
        }
        assert forall|k: int| 0 <= k < ps.len() implies v.layer_below(ps) > v.node(#[trigger] ps[k]).layer by {
            if k < ps.len() - 1 {
                assert(ps.drop_last()[k] == ps[k]);
            }
        }
    }
}

/// Adopting `x` by each node of `ps` makes `x` a child of each of them.
proof fn lemma_adopt_by_children<D>(v: DagView<D>, ps: Seq<NodeIdx>, x: NodeIdx)
    requires
        forall|j: int| 0 <= j < ps.len() ==> v.has(#[trigger] ps[j]),
    ensures
        forall|j: int| 0 <= j < ps.len() ==> v.adopt_by(ps, x).node(#[trigger] ps[j]).children.contains(x),
    decreases ps.len(),
{
    if ps.len() > 0 {
        let t = ps.drop_last();
        assert forall|j: int| 0 <= j < t.len() implies v.has(#[trigger] t[j]) by {
            assert(t[j] == ps[j]);
        }
        lemma_adopt_by_children(v, t, x);
        lemma_adopt_by_layers(v, t, x);
        let w = v.adopt_by(t, x);
        let p = ps.last();
        assert(v.has(ps[ps.len() - 1]));
        lemma_add_unique_contains(w.node(p).children, seq![x]);
        assert forall|j: int| 0 <= j < ps.len() implies v.adopt_by(ps, x).node(#[trigger] ps[j]).children.contains(
            x,
        ) by {
            if j < ps.len() - 1 {
                assert(t[j] == ps[j]);
                assert(w.node(ps[j]).children.contains(x));
                if ps[j] == p {
                    lemma_add_unique_keeps(w.node(p).children, seq![x], x);
                }
            }
        }
    }
}

/// Adoption by `ps` gives children only `x`.
proof fn lemma_adopt_by_only_x<D>(v: DagView<D>, ps: Seq<NodeIdx>, x: NodeIdx, y: NodeIdx, z: NodeIdx)
    requires
        forall|j: int| 0 <= j < ps.len() ==> v.has(#[trigger] ps[j]),
        v.has(y),
        v.adopt_by(ps, x).node(y).children.contains(z),
    ensures
        v.node(y).children.contains(z) || z == x,
    decreases ps.len(),
{
    if ps.len() > 0 {
        let t = ps.drop_last();
        assert forall|j: int| 0 <= j < t.len() implies v.has(#[trigger] t[j]) by {
            assert(t[j] == ps[j]);
        }
        lemma_adopt_by_layers(v, t, x);
        let w = v.adopt_by(t, x);
        let p = ps.last();
        assert(v.has(ps[ps.len() - 1]));
        let n = DagNodeView { children: add_unique(w.node(p).children, seq![x]), ..w.node(p) };
        assert(v.adopt_by(ps, x) == w.with_node(p, n));
        if y == p {
            let k = choose|k: int| 0 <= k < n.children.len() && n.children[k] == z;
            lemma_add_unique_in(w.node(p).children, seq![x], k);
            if k < w.node(p).children.len() {
                assert(w.node(p).children[k] == z);
                lemma_adopt_by_only_x(v, t, x, y, z);
            } else {
                assert(seq![x].contains(z));
            }
        } else {
            assert(v.adopt_by(ps, x).node(y) == w.node(y));
            lemma_adopt_by_only_x(v, t, x, y, z);
        }
    }
}

/// Adding a node keeps an acyclic DAG acyclic: the new node has no
/// children, so no cycle passes through it, and every other edge was there
/// before.  This needs the slot that the node takes to have no edges, as
/// every slot has that was never taken or was recycled, and the node not to
/// be among its own parents.
pub proof fn lemma_added_acyclic<D>(v: DagView<D>, dv: D, parent_idxs: Seq<NodeIdx>)
    requires
        v.wf(),
        v.can_add(parent_idxs),
        !has_cycle(v),
        v.garbage.len() > 0 ==> v.node(v.garbage[0]).children.len() == 0 && v.node(v.garbage[0]).parents.len() == 0,
        !parent_idxs.contains(v.take_slot(dv).1),
    ensures
        !has_cycle(v.added(dv, parent_idxs).0),
{
    let (v1, x) = v.take_slot(dv);
    let ps = add_unique(v1.node(x).parents, parent_idxs);
    let v2 = v1.with_node(x, DagNodeView { parents: ps, ..v1.node(x) });
    let v3 = if ps.len() == 0 {
        DagView { roots: v2.roots.push(x), ..v2 }
    } else {
        v2
    };
    let v4 = v3.adopt_by(ps, x);
    let (w, x2) = v.added(dv, parent_idxs);
    assert(x2 == x);
    assert(v.take_slot(arbitrary()).1 == x);
    assert(v.take_slot(arbitrary()).0.nodes.len() == v1.nodes.len());
    assert(v1.has(x));
    assert(v1.node(x).parents.len() == 0);
    assert(v1.node(x).children.len() == 0);
    assert forall|j: int| 0 <= j < ps.len() implies v3.has(#[trigger] ps[j]) && ps[j] != x by {
        lemma_add_unique_in(v1.node(x).parents, parent_idxs, j);
        let k = choose|k: int| 0 <= k < parent_idxs.len() && parent_idxs[k] == ps[j];
        assert((parent_idxs[k]).id() < v.slots_after_add());
    }
    lemma_adopt_by_layers(v3, ps, x);
    assert(!ps.contains(x));
    assert(v4.node(x) == v3.node(x));
    assert(w.node(x).children == v4.node(x).children);
    assert(w.node(x).children.len() == 0);
    if has_cycle(w) {
        let c = choose|c: Seq<NodeIdx>| #[trigger] is_cycle(w, c);
        assert forall|i: int| 0 <= i < c.len() implies #[trigger] c[i] != x by {
            let j = if i < c.len() - 1 {
                i
            } else {
                0
            };
            assert(c[j] == c[i]);
            assert(w.node(c[j]).children.contains(c[j + 1]));
        }
        assert forall|i: int| 0 <= i < c.len() implies v.has(#[trigger] c[i]) by {
            assert(w.has(c[i]));
            assert(c[i] != x);
        }
        assert forall|i: int| 0 <= i < c.len() - 1 implies v.node(#[trigger] c[i]).children.contains(c[i + 1]) by {
            let y = c[i];
            assert(y != x && c[i + 1] != x);
            assert(v.has(y));
            assert(w.node(y) == v4.node(y));
            assert(v3.node(y) == v.node(y));
            lemma_adopt_by_only_x(v3, ps, x, y, c[i + 1]);
        }
        assert(is_cycle(v, c));
    }
}

/// Merging under `p` gives children to `p` only, and only those of `cs`.
proof fn lemma_merged_children<D>(w: DagView<D>, p: NodeIdx, cs: Seq<NodeIdx>, y: NodeIdx, z: NodeIdx)
    requires
        w.has(p),
        w.has(y),
        forall|k: int| 0 <= k < cs.len() ==> w.has(#[trigger] cs[k]),
        w.merged(p, cs).node(y).children.contains(z),
    ensures
        w.node(y).children.contains(z) || (y == p && cs.contains(z)),
    decreases cs.len(),
{
    if cs.len() > 0 {
        let t = cs.drop_last();
        assert forall|k: int| 0 <= k < t.len() implies w.has(#[trigger] t[k]) by {
            assert(t[k] == cs[k]);
        }
        let m = w.merged(p, t);
        let c = cs.last();
        assert(w.has(cs[cs.len() - 1]));
        let w1 = m.with_node(p, DagNodeView { children: add_unique(m.node(p).children, seq![c]), ..m.node(p) });
        let w2 = w1.with_node(c, DagNodeView { parents: add_unique(w1.node(c).parents, seq![p]), ..w1.node(c) });
        assert(w.merged(p, cs) == w2);
        lemma_merged_len(w, p, t);
        assert(w2.node(y).children == w1.node(y).children);
        if y == p {
            let k = choose|k: int| 0 <= k < w1.node(p).children.len() && w1.node(p).children[k] == z;
            lemma_add_unique_in(m.node(p).children, seq![c], k);
            if k < m.node(p).children.len() {
                assert(m.node(p).children[k] == z);
                lemma_merged_children(w, p, t, y, z);
                if t.contains(z) {
                    let j = choose|j: int| 0 <= j < t.len() && t[j] == z;
                    assert(cs[j] == z);
                }
            } else {
                assert(seq![c].contains(z));
                assert(cs[cs.len() - 1] == z);
            }
        } else {
            assert(w1.node(y) == m.node(y));
            lemma_merged_children(w, p, t, y, z);
            if t.contains(z) {
                let j = choose|j: int| 0 <= j < t.len() && t[j] == z;
                assert(cs[j] == z);
            }
        }
    }
}

/// Merging keeps the number of slots.
proof fn lemma_merged_len<D>(w: DagView<D>, p: NodeIdx, cs: Seq<NodeIdx>)
    requires
        w.has(p),
        forall|k: int| 0 <= k < cs.len() ==> w.has(#[trigger] cs[k]),
    ensures
        w.merged(p, cs).nodes.len() == w.nodes.len(),
    decreases cs.len(),
{
    if cs.len() > 0 {
        let t = cs.drop_last();
        assert forall|k: int| 0 <= k < t.len() implies w.has(#[trigger] t[k]) by {
            assert(t[k] == cs[k]);
        }
        assert(w.has(cs[cs.len() - 1]));
        lemma_merged_len(w, p, t);
    }
}

/// Merging sub-DAGs keeps an acyclic DAG acyclic: the new parent has no
/// parents, so no cycle passes through it, and no other node gains a
/// child.  This needs the slot that the parent takes to have no edges and
/// to be listed as a child by no node, as every slot is that was never
/// taken or was recycled, and not to be among the children.
pub proof fn lemma_merged_acyclic<D>(v: DagView<D>, pd: D, cs: Seq<NodeIdx>)
    requires
        v.wf(),
        v.can_add(Seq::empty()),
        !has_cycle(v),
        forall|k: int| 0 <= k < cs.len() ==> v.has(#[trigger] cs[k]),
        v.garbage.len() > 0 ==> v.node(v.garbage[0]).children.len() == 0 && v.node(v.garbage[0]).parents.len() == 0,
        forall|y: NodeIdx| v.has(y) ==> !(#[trigger] v.node(y).children).contains(v.take_slot(pd).1),
        !cs.contains(v.take_slot(pd).1),
    ensures
        ({
            let (v1, p) = v.added(pd, Seq::empty());
            !has_cycle(v1.with_node(p, DagNodeView { data: pd, ..v1.node(p) }).merged(p, cs))
        }),
{
    let (v1, p) = v.added(pd, Seq::empty());
    let (u1, x) = v.take_slot(pd);
    assert(x == p);
    assert(v.take_slot(arbitrary()).1 == x);
    assert(v.take_slot(arbitrary()).0.nodes.len() == u1.nodes.len());
    assert(u1.has(x));
    assert(u1.node(x).parents.len() == 0 && u1.node(x).children.len() == 0);
    let ps = add_unique(u1.node(x).parents, Seq::<NodeIdx>::empty());
    assert(ps.len() == 0);
    let u = v1.with_node(p, DagNodeView { data: pd, ..v1.node(p) });
    assert forall|y: NodeIdx| u.has(y) implies #[trigger] u.node(y).children == if y == p {
        Seq::<NodeIdx>::empty()
    } else {
        v.node(y).children
    } by {
        if y != p {
            assert(u.node(y) == u1.node(y));
        }
    }
    assert forall|k: int| 0 <= k < cs.len() implies u.has(#[trigger] cs[k]) by {
        assert(v.has(cs[k]));
    }
    let f = u.merged(p, cs);
    lemma_merged_len(u, p, cs);
    if has_cycle(f) {
        let c = choose|c: Seq<NodeIdx>| #[trigger] is_cycle(f, c);
        assert forall|i: int| 0 <= i < c.len() implies #[trigger] c[i] != p by {
            let j = if i > 0 {
                i - 1
            } else {
                c.len() - 2
            };
            assert(c[j + 1] == c[i]);
            assert(f.node(c[j]).children.contains(c[j + 1]));
            lemma_merged_children(u, p, cs, c[j], c[j + 1]);
            if c[j] != p {
                assert(v.has(c[j]));
                assert(v.node(c[j]).children.contains(c[j + 1]));
            }
        }
        assert forall|i: int| 0 <= i < c.len() implies v.has(#[trigger] c[i]) by {
            assert(f.has(c[i]));
            assert(c[i] != p);
        }
        assert forall|i: int| 0 <= i < c.len() - 1 implies v.node(#[trigger] c[i]).children.contains(c[i + 1]) by {
            lemma_merged_children(u, p, cs, c[i], c[i + 1]);
        }
        assert(is_cycle(v, c));
    }
}

/// `add_unique(s, xs)` holds every entry of `xs`.
proof fn lemma_add_unique_contains(s: Seq<NodeIdx>, xs: Seq<NodeIdx>)
    ensures
        forall|k: int| 0 <= k < xs.len() ==> add_unique(s, xs).contains(#[trigger] xs[k]),
    decreases xs.len(),
{
    if xs.len() > 0 {
        lemma_add_unique_contains(s, xs.drop_last());
        let t = add_unique(s, xs.drop_last());
        assert forall|k: int| 0 <= k < xs.len() implies add_unique(s, xs).contains(#[trigger] xs[k]) by {
            if k < xs.len() - 1 {
                assert(xs.drop_last()[k] == xs[k]);
                lemma_add_unique_keeps(s, xs, xs[k]);
            } else if !t.contains(xs.last()) {
                assert(add_unique(s, xs)[t.len() as int] == xs.last());
            }
        }
    }
}

/// `add_unique(s, xs)` keeps what `add_unique(s, xs.drop_last())` and `s` hold.
proof fn lemma_add_unique_keeps(s: Seq<NodeIdx>, xs: Seq<NodeIdx>, y: NodeIdx)
    ensures
        xs.len() > 0 && add_unique(s, xs.drop_last()).contains(y) ==> add_unique(s, xs).contains(y),
        s.contains(y) ==> add_unique(s, xs).contains(y),
    decreases xs.len(),
{
    if xs.len() > 0 {
        lemma_add_unique_keeps(s, xs.drop_last(), y);
        let t = add_unique(s, xs.drop_last());
        if t.contains(y) && !t.contains(xs.last()) {
            let j = choose|j: int| 0 <= j < t.len() && t[j] == y;
            assert(add_unique(s, xs)[j] == y);
        }
    }
}

/// `add_node` links the new node both ways with each of the given parents,
/// and puts it in a layer after each of its parents other than itself.
pub proof fn lemma_added_links<D>(v: DagView<D>, dv: D, parent_idxs: Seq<NodeIdx>)
    requires
        v.wf(),
        v.can_add(parent_idxs),
    ensures
        ({
            let (w, x) = v.added(dv, parent_idxs);
            &&& forall|k: int|
                0 <= k < parent_idxs.len() ==> w.node(#[trigger] parent_idxs[k]).children.contains(x)
                    && w.node(x).parents.contains(parent_idxs[k])
            &&& forall|k: int|
                0 <= k < parent_idxs.len() && parent_idxs[k] != x ==> w.node(x).layer > w.node(
                    #[trigger] parent_idxs[k],
                ).layer
        }),
{
    let (v1, x) = v.take_slot(dv);
    let ps = add_unique(v1.node(x).parents, parent_idxs);
    let v2 = v1.with_node(x, DagNodeView { parents: ps, ..v1.node(x) });
    let v3 = if ps.len() == 0 {
        DagView { roots: v2.roots.push(x), ..v2 }
    } else {
        v2
    };
    let v4 = v3.adopt_by(ps, x);
    let (w, x2) = v.added(dv, parent_idxs);
    assert(x2 == x);
    assert(v.take_slot(arbitrary()).1 == x);
    assert(v.take_slot(arbitrary()).0.nodes.len() == v1.nodes.len());
    assert(v1.has(x));
    lemma_add_unique_contains(v1.node(x).parents, parent_idxs);
    assert forall|k: int| 0 <= k < ps.len() implies v3.has(#[trigger] ps[k]) by {
        lemma_add_unique_in(v1.node(x).parents, parent_idxs, k);
        if k < v1.node(x).parents.len() {
            if v.garbage.len() > 0 {
                assert(v.has(v.garbage[0]));
                assert(v.in_range(v.nodes[x.id()]));
                assert(v.has(v.nodes[x.id()].parents[k]));
            }
        } else {
            let j = choose|j: int| 0 <= j < parent_idxs.len() && parent_idxs[j] == ps[k];
            assert(parent_idxs[j].id() < v.slots_after_add());
        }
    }
    lemma_adopt_by_children(v3, ps, x);
    lemma_adopt_by_layers(v3, ps, x);
    lemma_layer_below(v4, ps);
    assert forall|k: int| 0 <= k < parent_idxs.len() implies w.node(#[trigger] parent_idxs[k]).children.contains(x)
        && w.node(x).parents.contains(parent_idxs[k]) by {
        let p = parent_idxs[k];
        assert(ps.contains(p));
        let j = choose|j: int| 0 <= j < ps.len() && ps[j] == p;
        assert(v4.node(ps[j]).children.contains(x));
        assert(v4.node(x).parents == ps);
    }
    assert forall|k: int| 0 <= k < parent_idxs.len() && parent_idxs[k] != x implies w.node(x).layer > w.node(
        #[trigger] parent_idxs[k],
    ).layer by {
        let p = parent_idxs[k];
        assert(ps.contains(p));
        let j = choose|j: int| 0 <= j < ps.len() && ps[j] == p;
        assert(v4.layer_below(ps) > v4.node(ps[j]).layer);
        assert(v.can_add(parent_idxs));
        assert(v.new_parents(parent_idxs) == ps);
        assert(v.take_slot(arbitrary()).0.node(ps[j]).layer == v1.node(ps[j]).layer);
        assert(v1.node(ps[j]).layer < usize::MAX);
        assert(v4.node(ps[j]).layer == v3.node(ps[j]).layer);
        assert(v4.layer_below(ps) <= usize::MAX) by {
            lemma_layer_below_max(v4, ps);
            assert forall|q: int| 0 <= q < ps.len() implies v4.node(#[trigger] ps[q]).layer < usize::MAX by {
                assert(v.take_slot(arbitrary()).0.node(ps[q]).layer == v1.node(ps[q]).layer);
                assert(v1.node(v.new_parents(parent_idxs)[q]).layer < usize::MAX);
                assert(v4.node(ps[q]).layer == v3.node(ps[q]).layer);
            }
        }
    }
}

/// The layer after the deepest of `ps` is at most one more than their
/// layers' bound.
proof fn lemma_layer_below_max<D>(v: DagView<D>, ps: Seq<NodeIdx>)
    ensures
        (forall|q: int| 0 <= q < ps.len() ==> v.node(#[trigger] ps[q]).layer < usize::MAX) ==> v.layer_below(ps)
            <= usize::MAX,
    decreases ps.len(),
{
    if ps.len() > 0 {
        lemma_layer_below_max(v, ps.drop_last());
        if forall|q: int| 0 <= q < ps.len() ==> v.node(#[trigger] ps[q]).layer < usize::MAX {
            assert forall|q: int| 0 <= q < ps.drop_last().len() implies v.node(#[trigger] ps.drop_last()[q]).layer
                < usize::MAX by {
                assert(ps.drop_last()[q] == ps[q]);
            }
            assert(v.node(ps[ps.len() - 1]).layer < usize::MAX);
        }
    }
}

/// A search below `x` that did not visit `x` shows that no cycle starts at
/// `x`.
proof fn lemma_no_cycle_through<D>(v: DagView<D>, x: NodeIdx, vis: Seq<bool>, pred: Seq<NodeIdx>, dist: Seq<usize>)
    requires
        v.wf(),
        search_ok(v, x, vis, pred, dist),
        !vis[x.id()],
    ensures
        forall|p: Seq<NodeIdx>| #[trigger] is_cycle(v, p) ==> p[0] != x,
{
    assert forall|p: Seq<NodeIdx>| #[trigger] is_cycle(v, p) implies p[0] != x by {
        if p[0] == x {
            lemma_path_visited(v, x, vis, pred, dist, p, p.len() - 1);
            assert(p[p.len() - 1] == x);
        }
    }
}

/// Every node of a cycle from `x` after `x` itself was visited by a search
/// below `x`.
proof fn lemma_path_visited<D>(
    v: DagView<D>,
    x: NodeIdx,
    vis: Seq<bool>,
    pred: Seq<NodeIdx>,
    dist: Seq<usize>,
    p: Seq<NodeIdx>,
    j: int,
)
    requires
        search_ok(v, x, vis, pred, dist),
        is_cycle(v, p),
        p[0] == x,
        1 <= j < p.len(),
    ensures
        vis[p[j].id()],
    decreases j,
{
    let q = p[j - 1];
    assert(v.node(p[j - 1]).children.contains(p[j]));
    let k = choose|k: int| 0 <= k < v.node(q).children.len() && v.node(q).children[k] == p[j];
    if j == 1 {
        assert(v.node(x).children[k] == p[j]);
    } else {
        lemma_path_visited(v, x, vis, pred, dist, p, j - 1);
        assert(v.has(p[j - 1]));
        assert(v.nodes[q.id()].children[k] == p[j]);
    }
}

} // verus!
