//! A forest: an arena of nodes together with an ordered list of root nodes.

use vstd::prelude::*;
use crate::arena::{
    acyclic, extends, lemma_paired_walks_extend, lemma_paired_walks_extend_other, lemma_paired_walks_in_range,
    lemma_walk_agrees_extend, lemma_first_parent_edge, lemma_preorder_follows, lemma_preorder_in_range, lemma_paired_walks_same_nodes, lemma_walk_agrees_same_nodes, lemma_walk_agrees_self,
    paired_walks, rows_view, walk_agrees, walk_total, walk_total_until, Arena, ArenaView, TraversalType,
};
use vstd::std_specs::cmp::{OrdSpec, PartialEqSpec, PartialOrdSpec};
use std::cmp::Ordering;
use crate::order::{
    option_ordering_of, ordering_of, partial_order_of, partial_orders, partial_sound, sized_walk_order,
    to_option_ordering, to_ordering, total_order_of, total_orders, total_sound, walk_decision, Order,
    lemma_walk_decision_same_nodes, lemma_paired_walks_swap, lemma_sized_walk_order_flip, antisymmetric, flip_opt,
    one_to_one, swap_pairs,
};
use crate::error::{Error, Result};
use crate::node::{Edge, Node, NodeCount, NodeIdx, NodeView};
use crate::seqs::{
    count_of, enqueue_one, first_index, lemma_count_positive, lemma_enqueue_one, lemma_first_index_bounds, lemma_idxs_of_index,
    lemma_without_members, without, enqueue, members, idxs_of,
};
use crate::text::decimal;
use crate::graphviz::{edge_label_by, edge_stmt_to, graph_items, item_stmt, DotGraph, DotRankDir};

verus! {

/// The index of a node in a `Forest`.
#[derive(Clone, Copy, PartialEq, Eq, Structural, PartialOrd, Ord, Hash, Debug)]
pub struct ForestIdx(pub NodeIdx);

impl ForestIdx {
    /// The displayed form of `self`: the slot of its node, in decimal.
    pub fn to_string(&self) -> (r: String)
        ensures
            r@ == decimal(self.0.0 as nat),
    {
        self.0.to_string()
    }
}

impl From<usize> for ForestIdx {
    fn from(idx: usize) -> (r: Self)
        ensures
            r == ForestIdx(NodeIdx(idx)),
    {
        ForestIdx(NodeIdx(idx))
    }
}

impl vstd::std_specs::convert::FromSpecImpl<usize> for ForestIdx {
    open spec fn obeys_from_spec() -> bool {
        true
    }

    open spec fn from_spec(v: usize) -> Self {
        ForestIdx(NodeIdx(v))
    }
}

impl From<NodeIdx> for ForestIdx {
    fn from(idx: NodeIdx) -> (r: Self)
        ensures
            r == ForestIdx(idx),
    {
        ForestIdx(idx)
    }
}

impl vstd::std_specs::convert::FromSpecImpl<NodeIdx> for ForestIdx {
    open spec fn obeys_from_spec() -> bool {
        true
    }

    open spec fn from_spec(v: NodeIdx) -> Self {
        ForestIdx(v)
    }
}

impl std::ops::Deref for ForestIdx {
    type Target = NodeIdx;

    fn deref(&self) -> (r: &NodeIdx)
        ensures
            *r == self.0,
    {
        &self.0
    }
}

/// The forest indices of a sequence of node indices.
pub open spec fn fidxs(s: Seq<NodeIdx>) -> Seq<ForestIdx> {
    s.map_values(|x: NodeIdx| ForestIdx(x))
}

/// The node indices of a sequence of forest indices.
pub open spec fn nidxs(s: Seq<ForestIdx>) -> Seq<NodeIdx> {
    s.map_values(|x: ForestIdx| x.0)
}

/// Outline rows of arena nodes, as rows of forest nodes.
pub open spec fn forest_rows(s: Seq<(nat, NodeIdx)>) -> Seq<(nat, ForestIdx)> {
    s.map_values(|e: (nat, NodeIdx)| (e.0, ForestIdx(e.1)))
}

/// The rows in which a forest with the trees of `roots` is displayed: the
/// outline of each tree, one tree after the other.
pub open spec fn forest_outline<D, P, C>(a: ArenaView<D, P, C>, roots: Seq<ForestIdx>) -> Seq<(nat, ForestIdx)>
    decreases roots.len(),
{
    if roots.len() == 0 {
        Seq::empty()
    } else {
        forest_outline(a, roots.drop_last()) + forest_rows(a.outline_from(roots.last().0))
    }
}

/// The forest indices of `v`, in order.
fn to_fidxs(v: Vec<NodeIdx>) -> (r: Vec<ForestIdx>)
    ensures
        r@ == fidxs(v@),
{
    let mut r: Vec<ForestIdx> = Vec::with_capacity(v.len());
    let mut i: usize = 0;
    while i < v.len()
        invariant
            0 <= i <= v@.len(),
            r@ == fidxs(v@.take(i as int)),
        decreases v@.len() - i,
    {
        r.push(ForestIdx(v[i]));
        proof {
            assert(v@.take(i + 1) == v@.take(i as int).push(v@[i as int]));
            assert(r@ =~= fidxs(v@.take(i + 1)));
        }
        i = i + 1;
    }
    assert(v@.take(i as int) =~= v@);
    r
}

/// The node indices of `v`, in order.
fn to_nidxs(v: &Vec<ForestIdx>) -> (r: Vec<NodeIdx>)
    ensures
        r@ == nidxs(v@),
{
    let mut r: Vec<NodeIdx> = Vec::with_capacity(v.len());
    let mut i: usize = 0;
    while i < v.len()
        invariant
            0 <= i <= v@.len(),
            r@ == nidxs(v@.take(i as int)),
        decreases v@.len() - i,
    {
        r.push(v[i].0);
        proof {
            assert(v@.take(i + 1) == v@.take(i as int).push(v@[i as int]));
            assert(r@ =~= nidxs(v@.take(i + 1)));
        }
        i = i + 1;
    }
    assert(v@.take(i as int) =~= v@);
    r
}

/// The lockstep pre-order walk that compares `a` with `b`: below the first
/// root of each, then below the second root of each, and so on.
pub open spec fn forest_walk<D, P, C>(a: ForestView<D, P, C>, b: ForestView<D, P, C>) -> Seq<(NodeIdx, NodeIdx)> {
    paired_walks(a.arena, b.arena, nidxs(a.roots), nidxs(b.roots))
}

/// `a` and `b` are logically equal: garbage left aside, they have as many
/// nodes and as many roots, and their lockstep pre-order walk agrees at every
/// pair of nodes.
pub open spec fn logically_equal<D: PartialEq, P, C>(a: ForestView<D, P, C>, b: ForestView<D, P, C>) -> bool {
    &&& a.arena.nodes.len() - a.arena.garbage.len() == b.arena.nodes.len() - b.arena.garbage.len()
    &&& a.roots.len() == b.roots.len()
    &&& walk_agrees(a.arena, b.arena, forest_walk(a, b))
}

/// The lockstep pre-order walk that orders `a` against `b`: below the
/// roots that both have, pair by pair.
pub open spec fn forest_order_walk<D, P, C>(a: ForestView<D, P, C>, b: ForestView<D, P, C>) -> Seq<(NodeIdx, NodeIdx)> {
    let n = if a.roots.len() <= b.roots.len() {
        a.roots.len()
    } else {
        b.roots.len()
    };
    paired_walks(a.arena, b.arena, nidxs(a.roots).take(n as int), nidxs(b.roots).take(n as int))
}

/// The first `n` node indices of `v`, in order.
fn to_nidxs_prefix(v: &Vec<ForestIdx>, n: usize) -> (r: Vec<NodeIdx>)
    requires
        n <= v@.len(),
    ensures
        r@ == nidxs(v@).take(n as int),
{
    let mut r: Vec<NodeIdx> = Vec::with_capacity(n);
    let mut i: usize = 0;
    while i < n
        invariant
            n <= v@.len(),
            0 <= i <= n,
            r@ == nidxs(v@).take(i as int),
        decreases n - i,
    {
        r.push(v[i].0);
        assert(nidxs(v@).take(i + 1) =~= nidxs(v@).take(i as int).push(v@[i as int].0));
        i = i + 1;
    }
    r
}

/// The difference between two forests, which carries no information.
#[derive(Clone, PartialEq, Eq, Structural)]
pub struct ErrorDelta {}

/// The abstract value of a `Forest`: its arena and its list of roots.
#[verifier::ext_equal]
pub ghost struct ForestView<D, P, C> {
    pub arena: ArenaView<D, P, C>,
    pub roots: Seq<ForestIdx>,
}

impl<D, P, C> std::ops::Index<ForestIdx> for Forest<D, P, C> {
    type Output = Node<D, P, C>;

    fn index(&self, idx: ForestIdx) -> (r: &Node<D, P, C>)
        ensures
            r@ == self@.arena.node(idx.0),
    {
        self.arena.node(idx.0)
    }
}

impl<D, P, C> vstd::std_specs::core::IndexSpecImpl<ForestIdx> for Forest<D, P, C> {
    open spec fn index_req(&self, idx: &ForestIdx) -> bool {
        self@.arena.has(idx.0)
    }
}

/// `p` is a value that `P::default()` can return.
pub open spec fn is_default<P: Default>(p: P) -> bool {
    call_ensures(P::default, (), p)
}

impl<D, P, C> ForestView<D, P, C> {
    /// One step of `rm_subtree`: unless `x` still has a parent and the
    /// removal is not forced, `x` loses its parent edges, leaves the roots,
    /// is queued as garbage, and loses its child edges, each former child
    /// becoming a root.
    pub open spec fn sweep_step(self, x: NodeIdx, force: bool) -> Self {
        if !force && self.arena.node(x).parents.len() > 0 {
            self
        } else {
            let a1 = self.arena.detach(set![x]);
            let a2 = ArenaView { garbage: enqueue_one(a1.garbage, x), ..a1 };
            ForestView {
                arena: a2.unparent(set![x]),
                roots: self.roots.remove_value(ForestIdx(x)) + fidxs(a2.children_of(x)),
            }
        }
    }

    /// The nodes below `x` form a tree: `x` has no parents, and every other
    /// node below it has exactly one.
    pub open spec fn is_tree_below(self, x: NodeIdx) -> bool {
        &&& self.arena.node(x).parents.len() == 0
        &&& forall|i: int|
            0 <= i < self.arena.preorder(x).len() && #[trigger] self.arena.preorder(x)[i] != x
                ==> self.arena.node(self.arena.preorder(x)[i]).parents.len() == 1
    }

    /// The steps of `rm_subtree` over the nodes of `xs`, in order.
    pub open spec fn sweep(self, xs: Seq<NodeIdx>, force: bool) -> Self
        decreases xs.len(),
    {
        if xs.len() == 0 {
            self
        } else {
            self.sweep(xs.drop_last(), force).sweep_step(xs.last(), force)
        }
    }
}

/// The state after each child `c` of `cs` in turn is unlinked from `p` and
/// recycled with everything below it, and the first child that was no
/// longer linked to `p` when its turn came (at which point it stopped).
pub open spec fn prune<D, P, C>(a: ArenaView<D, P, C>, p: NodeIdx, cs: Seq<NodeIdx>) -> (
    ArenaView<D, P, C>,
    Option<NodeIdx>,
)
    decreases cs.len(),
{
    if cs.len() == 0 {
        (a, None)
    } else {
        let (w, failed) = prune(a, p, cs.drop_last());
        if failed is Some {
            (w, failed)
        } else {
            let c = cs.last();
            if w.has_edge(p, c) {
                (w.unlink(p, c).recycle(c), None)
            } else {
                (w, Some(c))
            }
        }
    }
}

/// Once pruning is stuck on a child that is no longer linked, later
/// children change nothing.
pub proof fn lemma_prune_stuck<D, P, C>(
    a: ArenaView<D, P, C>,
    p: NodeIdx,
    xs: Seq<NodeIdx>,
    ys: Seq<NodeIdx>,
)
    requires
        prune(a, p, xs).1 is Some,
    ensures
        prune(a, p, xs + ys) == prune(a, p, xs),
    decreases ys.len(),
{
    if ys.len() == 0 {
        assert(xs + ys =~= xs);
    } else {
        lemma_prune_stuck(a, p, xs, ys.drop_last());
        assert((xs + ys).drop_last() =~= xs + ys.drop_last());
    }
}

/// The condition under which `copy_subtree` copies the nodes below `root`
/// without failing: visiting them in pre-order, the first parent of each
/// visited node was visited before it, except for `root`, which may instead
/// have no parent.
pub open spec fn copyable<D, P, C>(src: ArenaView<D, P, C>, root: NodeIdx) -> bool {
    let ord = src.preorder(root);
    forall|k: int|
        #![trigger ord[k]]
        0 <= k < ord.len() ==> {
            let ps = src.node(ord[k]).parents;
            if ord[k] == root {
                ps.len() == 0 || ord.take(k).contains(ps[0].0)
            } else {
                ps.len() > 0 && ord.take(k).contains(ps[0].0)
            }
        }
}

/// The data that the copy of the `k`-th visited node gets: a clone of the
/// node's data, and either default edge data (for `root`) or clones of the
/// data of the edge from the node's first parent.
pub open spec fn copied_values<D: Clone, P: Clone + Default, C: Clone + Default>(
    src: ArenaView<D, P, C>,
    root: NodeIdx,
    ord: Seq<NodeIdx>,
    vals: Seq<(D, P, C)>,
) -> bool {
    &&& vals.len() == ord.len()
    &&& forall|k: int|
        #![trigger vals[k]]
        0 <= k < vals.len() ==> {
            let y = ord[k];
            &&& vstd::pervasive::cloned(src.node(y).data, vals[k].0)
            &&& if y == root {
                is_default(vals[k].1) && is_default(vals[k].2)
            } else {
                let p = src.node(y).parents[0].0;
                &&& vstd::pervasive::cloned(src.node(y).parents[0].1, vals[k].1)
                &&& vstd::pervasive::cloned(
                    src.node(p).children[first_index(src.node(p).children, y)].1,
                    vals[k].2,
                )
            }
        }
}

/// The state of the destination after copying the nodes `ord` of `src`
/// with the data `vals`, and which copy each source node got last: each
/// node is allocated and linked under the copy of its first parent, or
/// under `at` when it has none.
pub open spec fn copy_steps<D, P, C>(
    dst: ArenaView<D, P, C>,
    src: ArenaView<D, P, C>,
    at: NodeIdx,
    ord: Seq<NodeIdx>,
    vals: Seq<(D, P, C)>,
) -> (ArenaView<D, P, C>, Map<NodeIdx, NodeIdx>)
    decreases ord.len(),
{
    if ord.len() == 0 {
        (dst, Map::empty())
    } else {
        let (w, m) = copy_steps(dst, src, at, ord.drop_last(), vals.drop_last());
        let y = ord.last();
        let (d, pd, cd) = vals.last();
        let (w1, n) = w.allocate(d);
        let ps = src.node(y).parents;
        let parent = if ps.len() == 0 {
            at
        } else {
            m[ps[0].0]
        };
        (w1.link(parent, n, pd, cd), m.insert(y, n))
    }
}

/// The invariant of the copying loop: the destination is as the steps so
/// far made it, and `map` records, slot by slot, the last copy of each
/// source node visited so far.
pub open spec fn copy_state_ok<D, P, C>(
    now: ArenaView<D, P, C>,
    map: Seq<Option<NodeIdx>>,
    a0: ArenaView<D, P, C>,
    src: ArenaView<D, P, C>,
    at: NodeIdx,
    done: Seq<NodeIdx>,
    vals: Seq<(D, P, C)>,
) -> bool {
    let (w, m) = copy_steps(a0, src, at, done, vals);
    &&& now == w
    &&& w.nodes.len() >= a0.nodes.len()
    &&& forall|i: int|
        0 <= i < map.len() ==> (#[trigger] map[i] matches Some(d) ==> m.contains_key(NodeIdx(i as usize))
            && m[NodeIdx(i as usize)] == d && w.has(d))
    &&& forall|y: NodeIdx| #[trigger] m.contains_key(y) <==> done.contains(y)
    &&& forall|y: NodeIdx| #[trigger] m.contains_key(y) ==> y.id() < map.len() && map[y.id()] is Some
}

proof fn lemma_copy_state_has_at<D, P, C>(
    now: ArenaView<D, P, C>,
    map: Seq<Option<NodeIdx>>,
    a0: ArenaView<D, P, C>,
    src: ArenaView<D, P, C>,
    at: NodeIdx,
    done: Seq<NodeIdx>,
    vals: Seq<(D, P, C)>,
)
    requires
        a0.has(at),
        copy_state_ok(now, map, a0, src, at, done, vals),
    ensures
        now.has(at),
{
}

proof fn lemma_copy_state_lookup<D, P, C>(
    now: ArenaView<D, P, C>,
    map: Seq<Option<NodeIdx>>,
    a0: ArenaView<D, P, C>,
    src: ArenaView<D, P, C>,
    at: NodeIdx,
    done: Seq<NodeIdx>,
    vals: Seq<(D, P, C)>,
    p: NodeIdx,
)
    requires
        copy_state_ok(now, map, a0, src, at, done, vals),
        done.contains(p),
    ensures
        p.id() < map.len(),
        map[p.id()] == Some(copy_steps(a0, src, at, done, vals).1[p]),
        now.has(copy_steps(a0, src, at, done, vals).1[p]),
{
    let m = copy_steps(a0, src, at, done, vals).1;
    assert(m.contains_key(p));
    assert(map[p.id()] is Some);
    assert(NodeIdx(p.id() as usize) == p);
}

proof fn lemma_copyable_at<D, P, C>(src: ArenaView<D, P, C>, root: NodeIdx, k: int)
    requires
        copyable(src, root),
        0 <= k < src.preorder(root).len(),
    ensures
        ({
            let ord = src.preorder(root);
            let ps = src.node(ord[k]).parents;
            if ord[k] == root {
                ps.len() == 0 || ord.take(k).contains(ps[0].0)
            } else {
                ps.len() > 0 && ord.take(k).contains(ps[0].0)
            }
        }),
{
    let ord = src.preorder(root);
    assert(ord[k] == ord[k]);
}

proof fn lemma_copy_step<D, P, C>(
    wb: ArenaView<D, P, C>,
    wa: ArenaView<D, P, C>,
    w2: ArenaView<D, P, C>,
    map0: Seq<Option<NodeIdx>>,
    map1: Seq<Option<NodeIdx>>,
    a0: ArenaView<D, P, C>,
    src: ArenaView<D, P, C>,
    at: NodeIdx,
    ord: Seq<NodeIdx>,
    k: int,
    vals: Seq<(D, P, C)>,
    d: D,
    pd: P,
    cd: C,
    parent: NodeIdx,
    n: NodeIdx,
)
    requires
        0 <= k < ord.len(),
        vals.len() == k,
        ord[k].id() < map0.len(),
        map0.len() <= usize::MAX,
        wb.wf(),
        copy_state_ok(wb, map0, a0, src, at, ord.take(k), vals),
        (wa, n) == wb.allocate(d),
        parent == if src.node(ord[k]).parents.len() == 0 {
            at
        } else {
            copy_steps(a0, src, at, ord.take(k), vals).1[src.node(ord[k]).parents[0].0]
        },
        w2 == wa.link(parent, n, pd, cd),
        wb.has(parent),
        map1 == map0.update(ord[k].id(), Some(n)),
    ensures
        copy_state_ok(w2, map1, a0, src, at, ord.take(k + 1), vals.push((d, pd, cd))),
{
    let y = ord[k];
    let vals2 = vals.push((d, pd, cd));
    let done = ord.take(k);
    let done2 = ord.take(k + 1);
    assert(done2.drop_last() =~= done);
    assert(done2.last() == y);
    assert(vals2.drop_last() =~= vals);
    assert(vals2.last() == (d, pd, cd));
    let m = copy_steps(a0, src, at, done, vals).1;
    let (w3, m2) = copy_steps(a0, src, at, done2, vals2);
    assert(w3 == w2);
    assert(m2 == m.insert(y, n));
    if wb.garbage.len() > 0 {
        assert(wb.has(wb.garbage[0]));
        assert(wa.nodes.len() == wb.nodes.len());
    } else {
        assert(wa.nodes.len() == wb.nodes.len() + 1);
    }
    assert(wa.has(n));
    assert(wa.has(parent));
    assert(w2.nodes.len() == wa.nodes.len());
    assert forall|i: int| 0 <= i < map1.len() implies (#[trigger] map1[i] matches Some(e) ==> m2.contains_key(
        NodeIdx(i as usize),
    ) && m2[NodeIdx(i as usize)] == e && w2.has(e)) by {
        if i == y.id() {
            assert(NodeIdx(i as usize) == y);
            assert(map1[i] == Some(n));
        } else {
            assert(map1[i] == map0[i]);
            assert(NodeIdx(i as usize) != y);
            if map0[i] is Some {
                assert(m.contains_key(NodeIdx(i as usize)));
            }
        }
    }
    assert forall|z: NodeIdx| #[trigger] m2.contains_key(z) <==> done2.contains(z) by {
        if done2.contains(z) && z != y {
            let j = choose|j: int| 0 <= j < done2.len() && #[trigger] done2[j] == z;
            assert(j < k);
            assert(done[j] == z);
        }
        if done.contains(z) {
            let j = choose|j: int| 0 <= j < done.len() && #[trigger] done[j] == z;
            assert(done2[j] == z);
        }
        if z == y {
            assert(done2[k] == z);
        }
    }
    assert forall|z: NodeIdx| #[trigger] m2.contains_key(z) implies z.id() < map1.len() && map1[z.id()] is Some by {
        if z != y {
            assert(m.contains_key(z));
            assert(map1[z.id()] == map0[z.id()]);
        } else {
            assert(map1[z.id()] == Some(n));
        }
    }
}

/// Every edge between a node below `root` (other than `root`) and its first
/// parent has a copy in `w`, between the copies that `m` gives, carrying
/// clones of the data of both of its ends.
pub open spec fn keeps_copied_edges<D, P: Clone, C: Clone>(
    src: ArenaView<D, P, C>,
    root: NodeIdx,
    w: ArenaView<D, P, C>,
    m: Map<NodeIdx, NodeIdx>,
) -> bool {
    let ord = src.preorder(root);
    forall|k: int|
        #![trigger ord[k]]
        0 <= k < ord.len() && ord[k] != root ==> {
            let y = ord[k];
            let p = src.node(y).parents[0].0;
            &&& exists|e: int|
                0 <= e < w.node(m[y]).parents.len() && w.node(m[y]).parents[e].0 == m[p] && vstd::pervasive::cloned(
                    src.node(y).parents[0].1,
                    #[trigger] w.node(m[y]).parents[e].1,
                )
            &&& exists|e: int|
                0 <= e < w.node(m[p]).children.len() && w.node(m[p]).children[e].0 == m[y] && vstd::pervasive::cloned(
                    src.node(p).children[first_index(src.node(p).children, y)].1,
                    #[trigger] w.node(m[p]).children[e].1,
                )
        }
}

/// Every node below `root` has a copy in `w`, which `m` gives, holding a
/// clone of its data.
pub open spec fn keeps_copied_data<D: Clone, P, C>(
    src: ArenaView<D, P, C>,
    root: NodeIdx,
    w: ArenaView<D, P, C>,
    m: Map<NodeIdx, NodeIdx>,
) -> bool {
    let ord = src.preorder(root);
    forall|k: int|
        #![trigger ord[k]]
        0 <= k < ord.len() ==> m.contains_key(ord[k]) && vstd::pervasive::cloned(
            src.node(ord[k]).data,
            w.node(m[ord[k]]).data,
        )
}

/// `w2` keeps every slot of `w`, and every list of edges of `w` as a prefix
/// of the matching list of `w2`.
pub open spec fn keeps_edges<D, P, C>(w: ArenaView<D, P, C>, w2: ArenaView<D, P, C>) -> bool {
    &&& w2.nodes.len() >= w.nodes.len()
    &&& forall|i: int|
        0 <= i < w.nodes.len() ==> {
            &&& (#[trigger] w2.nodes[i]).parents.len() >= w.nodes[i].parents.len()
            &&& w2.nodes[i].parents.take(w.nodes[i].parents.len() as int) == w.nodes[i].parents
            &&& w2.nodes[i].children.len() >= w.nodes[i].children.len()
            &&& w2.nodes[i].children.take(w.nodes[i].children.len() as int) == w.nodes[i].children
        }
}

/// Keeping edges is transitive.
proof fn lemma_keeps_edges_trans<D, P, C>(a: ArenaView<D, P, C>, b: ArenaView<D, P, C>, c: ArenaView<D, P, C>)
    requires
        keeps_edges(a, b),
        keeps_edges(b, c),
    ensures
        keeps_edges(a, c),
{
    assert forall|i: int| 0 <= i < a.nodes.len() implies {
        &&& (#[trigger] c.nodes[i]).parents.len() >= a.nodes[i].parents.len()
        &&& c.nodes[i].parents.take(a.nodes[i].parents.len() as int) == a.nodes[i].parents
        &&& c.nodes[i].children.len() >= a.nodes[i].children.len()
        &&& c.nodes[i].children.take(a.nodes[i].children.len() as int) == a.nodes[i].children
    } by {
        assert(b.nodes[i].parents.take(a.nodes[i].parents.len() as int) == a.nodes[i].parents);
        assert(c.nodes[i].parents.take(b.nodes[i].parents.len() as int) == b.nodes[i].parents);
        assert(c.nodes[i].parents.take(a.nodes[i].parents.len() as int) =~= a.nodes[i].parents);
        assert(b.nodes[i].children.take(a.nodes[i].children.len() as int) == a.nodes[i].children);
        assert(c.nodes[i].children.take(b.nodes[i].children.len() as int) == b.nodes[i].children);
        assert(c.nodes[i].children.take(a.nodes[i].children.len() as int) =~= a.nodes[i].children);
    }
}

/// Every state keeps its own edges.
proof fn lemma_keeps_edges_refl<D, P, C>(a: ArenaView<D, P, C>)
    ensures
        keeps_edges(a, a),
{
    assert forall|i: int| 0 <= i < a.nodes.len() implies {
        &&& (#[trigger] a.nodes[i]).parents.len() >= a.nodes[i].parents.len()
        &&& a.nodes[i].parents.take(a.nodes[i].parents.len() as int) == a.nodes[i].parents
        &&& a.nodes[i].children.len() >= a.nodes[i].children.len()
        &&& a.nodes[i].children.take(a.nodes[i].children.len() as int) == a.nodes[i].children
    } by {
        assert(a.nodes[i].parents.take(a.nodes[i].parents.len() as int) =~= a.nodes[i].parents);
        assert(a.nodes[i].children.take(a.nodes[i].children.len() as int) =~= a.nodes[i].children);
    }
}

/// The facts that the steps of a copy keep: the slots of the destination
/// stay, its garbage entries and the copies made so far are allocated, and
/// every node visited so far has a copy.
pub open spec fn copy_steps_ok<D, P, C>(
    a0: ArenaView<D, P, C>,
    w: ArenaView<D, P, C>,
    m: Map<NodeIdx, NodeIdx>,
    done: Seq<NodeIdx>,
) -> bool {
    &&& w.nodes.len() >= a0.nodes.len()
    &&& forall|g: int| 0 <= g < w.garbage.len() ==> w.has(#[trigger] w.garbage[g])
    &&& w.garbage.no_duplicates()
    &&& forall|y: NodeIdx| #[trigger] m.contains_key(y) ==> w.has(m[y]) && !w.garbage.contains(m[y])
    &&& forall|y: NodeIdx| #[trigger] m.contains_key(y) <==> done.contains(y)
}

/// One step of a copy: allocating the copy of `y` and linking it under the
/// copy of its first parent (or `at`) keeps the facts, keeps every edge, and
/// leaves the copies of the other nodes as they were.
proof fn lemma_copy_one_step<D, P, C>(
    a0: ArenaView<D, P, C>,
    src: ArenaView<D, P, C>,
    at: NodeIdx,
    ord: Seq<NodeIdx>,
    vals: Seq<(D, P, C)>,
    i: int,
)
    requires
        0 <= i < ord.len(),
        vals.len() == ord.len(),
        a0.has(at),
        copy_steps_ok(
            a0,
            copy_steps(a0, src, at, ord.take(i), vals.take(i)).0,
            copy_steps(a0, src, at, ord.take(i), vals.take(i)).1,
            ord.take(i),
        ),
        src.node(ord[i]).parents.len() > 0 ==> ord.take(i).contains(src.node(ord[i]).parents[0].0),
    ensures
        ({
            let (w, m) = copy_steps(a0, src, at, ord.take(i), vals.take(i));
            let (w2, m2) = copy_steps(a0, src, at, ord.take(i + 1), vals.take(i + 1));
            &&& copy_steps_ok(a0, w2, m2, ord.take(i + 1))
            &&& keeps_edges(w, w2)
            &&& m2 == m.insert(ord[i], m2[ord[i]])
            &&& w2.nodes.len() <= usize::MAX ==> w2.node(m2[ord[i]]).data == vals[i].0
            &&& forall|z: NodeIdx| #[trigger] m.contains_key(z) ==> w2.node(m[z]).data == w.node(m[z]).data
            &&& src.node(ord[i]).parents.len() > 0 ==> {
                let pc = m[src.node(ord[i]).parents[0].0];
                let n = m2[ord[i]];
                &&& w2.node(n).parents.len() > 0
                &&& w2.node(n).parents.last() == (pc, vals[i].1)
                &&& w2.node(pc).children.len() > 0
                &&& w2.node(pc).children.last() == (n, vals[i].2)
            }
        }),
{
    let (w, m) = copy_steps(a0, src, at, ord.take(i), vals.take(i));
    let y = ord[i];
    assert(ord.take(i + 1).drop_last() =~= ord.take(i));
    assert(vals.take(i + 1).drop_last() =~= vals.take(i));
    assert(ord.take(i + 1).last() == y);
    assert(vals.take(i + 1).last() == vals[i]);
    let (d, pd, cd) = vals[i];
    let (w1, n) = w.allocate(d);
    let ps = src.node(y).parents;
    let parent = if ps.len() == 0 {
        at
    } else {
        m[ps[0].0]
    };
    let w2 = w1.link(parent, n, pd, cd);
    let m2 = m.insert(y, n);
    assert(copy_steps(a0, src, at, ord.take(i + 1), vals.take(i + 1)) == (w2, m2));
    if w.garbage.len() > 0 {
        assert(w.has(w.garbage[0]));
    }
    assert(w1.has(n));
    if ps.len() > 0 {
        assert(ord.take(i).contains(ps[0].0));
        assert(m.contains_key(ps[0].0));
    }
    assert(w.has(parent));
    assert(w1.has(parent));
    assert forall|g: int| 0 <= g < w2.garbage.len() implies w2.has(#[trigger] w2.garbage[g]) by {
        if w.garbage.len() > 0 {
            assert(w2.garbage[g] == w.garbage[g + 1]);
        } else {
            assert(w2.garbage[g] == w.garbage[g]);
        }
    }
    assert forall|a: int, b: int| 0 <= a < w2.garbage.len() && 0 <= b < w2.garbage.len() && a != b implies w2.garbage[a]
        != w2.garbage[b] by {
        if w.garbage.len() > 0 {
            assert(w2.garbage[a] == w.garbage[a + 1] && w2.garbage[b] == w.garbage[b + 1]);
        }
    }
    assert forall|z: NodeIdx| #[trigger] m2.contains_key(z) implies w2.has(m2[z]) && !w2.garbage.contains(m2[z]) by {
        if z == y {
            if w2.garbage.contains(n) {
                let g = choose|g: int| 0 <= g < w2.garbage.len() && w2.garbage[g] == n;
                if w.garbage.len() > 0 {
                    assert(w.garbage[g + 1] == w.garbage[0]);
                } else {
                    assert(w.has(w.garbage[g]));
                }
            }
        } else {
            assert(m.contains_key(z));
            if w2.garbage.contains(m[z]) {
                let g = choose|g: int| 0 <= g < w2.garbage.len() && w2.garbage[g] == m[z];
                if w.garbage.len() > 0 {
                    assert(w.garbage[g + 1] == m[z]);
                } else {
                    assert(w.garbage[g] == m[z]);
                }
            }
        }
    }
    if w2.nodes.len() <= usize::MAX {
        assert(w1.node(n).data == d);
        assert(w2.node(n).data == w1.node(n).data);
    }
    assert(m2[y] == n);
    assert forall|z: NodeIdx| #[trigger] m.contains_key(z) implies w2.node(m[z]).data == w.node(m[z]).data by {
        assert(w.has(m[z]));
        if w.garbage.len() > 0 {
            assert(w.garbage.contains(w.garbage[0]));
            assert(m[z] != n);
        }
    }
    assert forall|z: NodeIdx| #[trigger] m2.contains_key(z) <==> ord.take(i + 1).contains(z) by {
        if ord.take(i + 1).contains(z) && z != y {
            let t = ord.take(i + 1);
            let j = choose|j: int| 0 <= j < t.len() && t[j] == z;
            assert(ord.take(i)[j] == z);
        }
        if ord.take(i).contains(z) {
            let t = ord.take(i);
            let j = choose|j: int| 0 <= j < t.len() && t[j] == z;
            assert(ord.take(i + 1)[j] == z);
        }
        if z == y {
            assert(ord.take(i + 1)[i] == z);
        }
    }
    assert(m2 == m.insert(y, m2[y]));
    assert forall|k: int| 0 <= k < w.nodes.len() implies {
        &&& (#[trigger] w2.nodes[k]).parents.len() >= w.nodes[k].parents.len()
        &&& w2.nodes[k].parents.take(w.nodes[k].parents.len() as int) == w.nodes[k].parents
        &&& w2.nodes[k].children.len() >= w.nodes[k].children.len()
        &&& w2.nodes[k].children.take(w.nodes[k].children.len() as int) == w.nodes[k].children
    } by {
        assert(w1.nodes[k].parents == w.nodes[k].parents);
        assert(w1.nodes[k].children == w.nodes[k].children);
        assert(w2.nodes[k].parents.take(w1.nodes[k].parents.len() as int) =~= w1.nodes[k].parents);
        assert(w2.nodes[k].children.take(w1.nodes[k].children.len() as int) =~= w1.nodes[k].children);
    }
}

/// The facts that the steps of a copy keep hold after any number of steps.
proof fn lemma_copy_steps_ok<D, P, C>(
    a0: ArenaView<D, P, C>,
    src: ArenaView<D, P, C>,
    root: NodeIdx,
    at: NodeIdx,
    vals: Seq<(D, P, C)>,
    j: int,
)
    requires
        a0.wf(),
        a0.has(at),
        src.has(root),
        copyable(src, root),
        src.preorder(root).no_duplicates(),
        vals.len() == src.preorder(root).len(),
        0 <= j <= src.preorder(root).len(),
    ensures
        copy_steps_ok(
            a0,
            copy_steps(a0, src, at, src.preorder(root).take(j), vals.take(j)).0,
            copy_steps(a0, src, at, src.preorder(root).take(j), vals.take(j)).1,
            src.preorder(root).take(j),
        ),
    decreases j,
{
    let ord = src.preorder(root);
    if j == 0 {
        assert(ord.take(0) =~= Seq::<NodeIdx>::empty());
        assert(vals.take(0) =~= Seq::<(D, P, C)>::empty());
        let (w, m) = copy_steps(a0, src, at, ord.take(0), vals.take(0));
        assert(m == Map::<NodeIdx, NodeIdx>::empty());
        assert forall|g: int| 0 <= g < w.garbage.len() implies w.has(#[trigger] w.garbage[g]) by {
            assert(a0.has(a0.garbage[g]));
        }
    } else {
        lemma_copy_steps_ok(a0, src, root, at, vals, j - 1);
        lemma_copy_parent_visited(src, root, j - 1);
        lemma_copy_one_step(a0, src, at, ord, vals, j - 1);
    }
}

/// The first parent of each node visited by a copy, when it has one, was
/// visited before it.
proof fn lemma_copy_parent_visited<D, P, C>(src: ArenaView<D, P, C>, root: NodeIdx, k: int)
    requires
        src.has(root),
        copyable(src, root),
        src.preorder(root).no_duplicates(),
        0 <= k < src.preorder(root).len(),
    ensures
        ({
            let ord = src.preorder(root);
            src.node(ord[k]).parents.len() > 0 ==> ord.take(k).contains(src.node(ord[k]).parents[0].0)
        }),
{
    let ord = src.preorder(root);
    lemma_copyable_at(src, root, k);
    lemma_preorder_first(src, root);
    if ord[k] == root && k > 0 {
        assert(ord[0] == ord[k]);
    }
    if ord[k] == root && k == 0 {
        assert(ord.take(0) =~= Seq::<NodeIdx>::empty());
    }
}

/// The copies of a run of steps, from `i` steps on to `j` steps: every
/// edge stays, and the copy of every node visited in the first `i` steps
/// stays the same.
proof fn lemma_copy_steps_between<D, P, C>(
    a0: ArenaView<D, P, C>,
    src: ArenaView<D, P, C>,
    root: NodeIdx,
    at: NodeIdx,
    vals: Seq<(D, P, C)>,
    i: int,
    j: int,
)
    requires
        a0.wf(),
        a0.has(at),
        src.has(root),
        copyable(src, root),
        src.preorder(root).no_duplicates(),
        vals.len() == src.preorder(root).len(),
        0 <= i <= j <= src.preorder(root).len(),
    ensures
        ({
            let ord = src.preorder(root);
            let (w, m) = copy_steps(a0, src, at, ord.take(i), vals.take(i));
            let (w2, m2) = copy_steps(a0, src, at, ord.take(j), vals.take(j));
            &&& keeps_edges(w, w2)
            &&& forall|y: NodeIdx|
                #[trigger] m.contains_key(y) ==> m2.contains_key(y) && m2[y] == m[y] && w2.node(m[y]).data == w.node(
                    m[y],
                ).data
        }),
    decreases j,
{
    let ord = src.preorder(root);
    if i == j {
        let (w, m) = copy_steps(a0, src, at, ord.take(i), vals.take(i));
        lemma_keeps_edges_refl(w);
    } else {
        lemma_copy_steps_between(a0, src, root, at, vals, i, j - 1);
        lemma_copy_steps_ok(a0, src, root, at, vals, j - 1);
        lemma_copy_steps_ok(a0, src, root, at, vals, i);
        lemma_copy_parent_visited(src, root, j - 1);
        lemma_copy_one_step(a0, src, at, ord, vals, j - 1);
        let (w, m) = copy_steps(a0, src, at, ord.take(i), vals.take(i));
        let (w1, m1) = copy_steps(a0, src, at, ord.take(j - 1), vals.take(j - 1));
        let (w2, m2) = copy_steps(a0, src, at, ord.take(j), vals.take(j));
        lemma_keeps_edges_trans(w, w1, w2);
        assert forall|y: NodeIdx| #[trigger] m.contains_key(y) implies m2.contains_key(y) && m2[y] == m[y] && w2.node(
            m[y],
        ).data == w.node(m[y]).data by {
            assert(m1.contains_key(y));
            assert(m1[y] == m[y]);
            assert(w2.node(m1[y]).data == w1.node(m1[y]).data);
            assert(ord.take(i).contains(y));
            if y == ord[j - 1] {
                let t = ord.take(i);
                let a = choose|a: int| 0 <= a < t.len() && t[a] == y;
                assert(ord[a] == t[a]);
                assert(ord[a] == ord[j - 1]);
            }
        }
    }
}

/// The pre-order below `x` starts with `x`.
proof fn lemma_preorder_first<D, P, C>(v: ArenaView<D, P, C>, x: NodeIdx)
    requires
        v.has(x),
    ensures
        v.preorder(x).len() > 0,
        v.preorder(x)[0] == x,
{
    let n = v.nodes.len();
    assert(v.preorder(x) == seq![x] + v.dfs_list(v.children_of(x), (n - 1) as nat));
}

/// Copying a subtree keeps the data of its edges: for every node `y` below
/// `root` other than `root`, the copy of `y` lists the copy of the first
/// parent `p` of `y` as a parent, with a clone of the data of the edge from
/// `y` up to `p`, and the copy of `p` lists the copy of `y` as a child, with
/// a clone of the data of the edge from `p` down to `y` (only the edge to
/// the copied root gets default data).
pub proof fn lemma_copy_keeps_edge_data<D: Clone, P: Clone + Default, C: Clone + Default>(
    a0: ArenaView<D, P, C>,
    src: ArenaView<D, P, C>,
    root: NodeIdx,
    at: NodeIdx,
    vals: Seq<(D, P, C)>,
)
    requires
        a0.wf(),
        a0.has(at),
        src.wf(),
        src.has(root),
        copyable(src, root),
        src.preorder(root).no_duplicates(),
        copied_values(src, root, src.preorder(root), vals),
    ensures
        keeps_copied_edges(
            src,
            root,
            copy_steps(a0, src, at, src.preorder(root), vals).0,
            copy_steps(a0, src, at, src.preorder(root), vals).1,
        ),
{
    let ord = src.preorder(root);
    let (w, m) = copy_steps(a0, src, at, ord, vals);
    assert forall|k: int| #![trigger ord[k]] 0 <= k < ord.len() && ord[k] != root implies {
        let y = ord[k];
        let p = src.node(y).parents[0].0;
        &&& exists|e: int|
            0 <= e < w.node(m[y]).parents.len() && w.node(m[y]).parents[e].0 == m[p]
                && vstd::pervasive::cloned(src.node(y).parents[0].1, #[trigger] w.node(m[y]).parents[e].1)
        &&& exists|e: int|
            0 <= e < w.node(m[p]).children.len() && w.node(m[p]).children[e].0 == m[y]
                && vstd::pervasive::cloned(
                src.node(p).children[first_index(src.node(p).children, y)].1,
                #[trigger] w.node(m[p]).children[e].1,
            )
    } by {
        let (ep, ec) = lemma_copy_edge_at(a0, src, root, at, vals, k);
    }
}

/// Copying a subtree gives the copy of every node below `root` a clone of
/// that node's data.
pub proof fn lemma_copy_keeps_node_data<D: Clone, P: Clone + Default, C: Clone + Default>(
    a0: ArenaView<D, P, C>,
    src: ArenaView<D, P, C>,
    root: NodeIdx,
    at: NodeIdx,
    vals: Seq<(D, P, C)>,
)
    requires
        a0.wf(),
        a0.has(at),
        src.has(root),
        copyable(src, root),
        src.preorder(root).no_duplicates(),
        copied_values(src, root, src.preorder(root), vals),
        copy_steps(a0, src, at, src.preorder(root), vals).0.nodes.len() <= usize::MAX,
    ensures
        keeps_copied_data(
            src,
            root,
            copy_steps(a0, src, at, src.preorder(root), vals).0,
            copy_steps(a0, src, at, src.preorder(root), vals).1,
        ),
{
    let ord = src.preorder(root);
    let n = ord.len() as int;
    assert(ord.take(n) =~= ord);
    assert(vals.take(n) =~= vals);
    let (w, m) = copy_steps(a0, src, at, ord, vals);
    assert forall|k: int| #![trigger ord[k]] 0 <= k < ord.len() implies m.contains_key(ord[k]) && vstd::pervasive::cloned(
        src.node(ord[k]).data,
        w.node(m[ord[k]]).data,
    ) by {
        let y = ord[k];
        lemma_copy_steps_ok(a0, src, root, at, vals, k);
        lemma_copy_parent_visited(src, root, k);
        lemma_copy_one_step(a0, src, at, ord, vals, k);
        lemma_copy_steps_ok(a0, src, root, at, vals, k + 1);
        lemma_copy_steps_between(a0, src, root, at, vals, k + 1, n);
        let (w1, m1) = copy_steps(a0, src, at, ord.take(k + 1), vals.take(k + 1));
        assert(m1.contains_key(y));
        assert(w1.nodes.len() <= w.nodes.len());
        assert(vals[k] == vals.take(n)[k]);
        assert(copied_values(src, root, ord, vals));
        assert(vals[k] == vals[k]);
    }
}

/// The edge made for the `k`-th visited node stays in the finished copy,
/// between the copy of that node and the copy of its first parent: at
/// position `r.0` of the parents of the one and `r.1` of the children of
/// the other.
proof fn lemma_copy_edge_at<D: Clone, P: Clone + Default, C: Clone + Default>(
    a0: ArenaView<D, P, C>,
    src: ArenaView<D, P, C>,
    root: NodeIdx,
    at: NodeIdx,
    vals: Seq<(D, P, C)>,
    k: int,
) -> (r: (int, int))
    requires
        a0.wf(),
        a0.has(at),
        src.has(root),
        copyable(src, root),
        src.preorder(root).no_duplicates(),
        copied_values(src, root, src.preorder(root), vals),
        0 <= k < src.preorder(root).len(),
        src.preorder(root)[k] != root,
    ensures
        ({
            let ord = src.preorder(root);
            let (w, m) = copy_steps(a0, src, at, ord, vals);
            let y = ord[k];
            let p = src.node(y).parents[0].0;
            &&& 0 <= r.0 < w.node(m[y]).parents.len()
            &&& w.node(m[y]).parents[r.0].0 == m[p]
            &&& vstd::pervasive::cloned(src.node(y).parents[0].1, w.node(m[y]).parents[r.0].1)
            &&& 0 <= r.1 < w.node(m[p]).children.len()
            &&& w.node(m[p]).children[r.1].0 == m[y]
            &&& vstd::pervasive::cloned(
                src.node(p).children[first_index(src.node(p).children, y)].1,
                w.node(m[p]).children[r.1].1,
            )
        }),
{
    let ord = src.preorder(root);
    let n = ord.len() as int;
    assert(ord.take(n) =~= ord);
    assert(vals.take(n) =~= vals);
    let y = ord[k];
    lemma_copy_parent_visited(src, root, k);
    lemma_copyable_at(src, root, k);
    let p = src.node(y).parents[0].0;
    lemma_copy_steps_ok(a0, src, root, at, vals, k);
    lemma_copy_one_step(a0, src, at, ord, vals, k);
    lemma_copy_steps_ok(a0, src, root, at, vals, k + 1);
    lemma_copy_steps_between(a0, src, root, at, vals, k + 1, n);
    let (w, m) = copy_steps(a0, src, at, ord, vals);
    let (wk, mk) = copy_steps(a0, src, at, ord.take(k), vals.take(k));
    let (w1, m1) = copy_steps(a0, src, at, ord.take(k + 1), vals.take(k + 1));
    let pc = mk[p];
    let c = m1[y];
    assert(mk.contains_key(p));
    assert(m1.contains_key(y) && m1.contains_key(p));
    assert(m1[p] == pc) by {
        if p == y {
            let t = ord.take(k);
            let a = choose|a: int| 0 <= a < t.len() && t[a] == p;
            assert(ord[a] == t[a]);
            assert(ord[a] == ord[k]);
        }
    }
    assert(m[y] == c && m[p] == pc);
    assert(w1.has(c) && w1.has(pc));
    assert(vals[k] == vals.take(n)[k]);
    let ep = w1.node(c).parents.len() - 1;
    let ec = w1.node(pc).children.len() - 1;
    assert(w.nodes[c.id()].parents.take(w1.nodes[c.id()].parents.len() as int) == w1.nodes[c.id()].parents);
    assert(w.nodes[pc.id()].children.take(w1.nodes[pc.id()].children.len() as int) == w1.nodes[pc.id()].children);
    assert(w.node(c).parents[ep] == w1.node(c).parents[ep]);
    assert(w.node(pc).children[ec] == w1.node(pc).children[ec]);
    assert(copied_values(src, root, ord, vals));
    assert(vals[k] == vals[k]);
    (ep, ec)
}

proof fn lemma_copied_values_step<D: Clone, P: Clone + Default, C: Clone + Default>(
    src: ArenaView<D, P, C>,
    root: NodeIdx,
    ord: Seq<NodeIdx>,
    k: int,
    vals: Seq<(D, P, C)>,
    d: D,
    pd: P,
    cd: C,
)
    requires
        0 <= k < ord.len(),
        copied_values(src, root, ord.take(k), vals),
        vstd::pervasive::cloned(src.node(ord[k]).data, d),
        if ord[k] == root {
            is_default(pd) && is_default(cd)
        } else {
            let p = src.node(ord[k]).parents[0].0;
            &&& vstd::pervasive::cloned(src.node(ord[k]).parents[0].1, pd)
            &&& vstd::pervasive::cloned(
                src.node(p).children[first_index(src.node(p).children, ord[k])].1,
                cd,
            )
        },
    ensures
        copied_values(src, root, ord.take(k + 1), vals.push((d, pd, cd))),
{
    let vals2 = vals.push((d, pd, cd));
    assert forall|j: int| #![trigger vals2[j]] 0 <= j < vals2.len() implies {
        let y = ord.take(k + 1)[j];
        &&& vstd::pervasive::cloned(src.node(y).data, vals2[j].0)
        &&& if y == root {
            is_default(vals2[j].1) && is_default(vals2[j].2)
        } else {
            let p = src.node(y).parents[0].0;
            &&& vstd::pervasive::cloned(src.node(y).parents[0].1, vals2[j].1)
            &&& vstd::pervasive::cloned(
                src.node(p).children[first_index(src.node(p).children, y)].1,
                vals2[j].2,
            )
        }
    } by {
        if j < k {
            assert(vals2[j] == vals[j]);
            assert(ord.take(k + 1)[j] == ord.take(k)[j]);
        }
    }
}

/// An arena-allocated forest: nodes, the edges between them, and an
/// ordered list of root nodes.
#[derive(Clone, Debug, Hash)]
pub struct Forest<D, P, C> {
    arena: Arena<D, P, C>,
    roots: Vec<ForestIdx>,
}

impl<D, P, C> Default for Forest<D, P, C> {
    fn default() -> (r: Self)
        ensures
            r@.arena.nodes.len() == 0,
            r@.arena.garbage.len() == 0,
            r@.roots.len() == 0,
            r.wf(),
    {
        Self::with_capacity(64)
    }
}

impl<D, P, C> Forest<D, P, C> {
    /// The abstract value of `self`.
    pub closed spec fn view(&self) -> ForestView<D, P, C> {
        ForestView { arena: self.arena@, roots: self.roots@ }
    }

    /// The arena of `self` is well-formed.
    pub open spec fn wf(&self) -> bool {
        self@.arena.wf()
    }

    /// `fidx` designates an allocated node of `self`.
    pub open spec fn has(&self, fidx: ForestIdx) -> bool {
        self@.arena.has(fidx.0)
    }

    /// The forest made of `arena` and the roots `roots`, as they are.
    pub fn from_parts(arena: Arena<D, P, C>, roots: Vec<ForestIdx>) -> (r: Self)
        ensures
            r@ == (ForestView { arena: arena@, roots: roots@ }),
    {
        Forest { arena, roots }
    }

    /// The arena and the roots of `self`.
    pub fn into_parts(self) -> (r: (Arena<D, P, C>, Vec<ForestIdx>))
        ensures
            r.0@ == self@.arena,
            r.1@ == self@.roots,
    {
        (self.arena, self.roots)
    }

    /// An empty forest, with room for `cap` nodes before reallocation.
    pub fn with_capacity(cap: usize) -> (r: Self)
        ensures
            r@.arena.nodes.len() == 0,
            r@.arena.garbage.len() == 0,
            r@.roots.len() == 0,
            r.wf(),
    {
        Self { arena: Arena::with_capacity(cap), roots: Vec::new() }
    }

    /// Whether `self` is well-formed: see `Arena::is_wf`.
    pub fn is_wf(&self) -> (r: bool)
        ensures
            r == self.wf(),
    {
        self.arena.is_wf()
    }

    /// Get the logical size, which is defined as `physical size - garbage size`
    /// i.e. the number of allocated, non-garbage nodes in `self`.
    pub fn logical_size(&self) -> (r: NodeCount)
        requires
            self@.arena.garbage.len() <= self@.arena.nodes.len(),
        ensures
            r.count() == self@.arena.nodes.len() - self@.arena.garbage.len(),
            self.wf() ==> r.count() == self@.arena.live_slots().len(),
    {
        self.arena.logical_size()
    }

    /// Get the physical size, which is defined as the number of nodes
    /// allocated in the forest, whether they are garbage or not.
    pub fn physical_size(&self) -> (r: NodeCount)
        ensures
            r.count() == self@.arena.nodes.len(),
    {
        self.arena.physical_size()
    }

    /// Get the garbage size i.e. the number of garbage nodes in `self`.
    pub fn garbage_size(&self) -> (r: NodeCount)
        ensures
            r.count() == self@.arena.garbage.len(),
    {
        self.arena.garbage_size()
    }

    /// A mutable borrow of the node `self[fidx]`.
    pub fn node_mut(&mut self, fidx: ForestIdx) -> (r: &mut Node<D, P, C>)
        requires
            old(self).has(fidx),
        ensures
            (*r)@ == old(self)@.arena.node(fidx.0),
            final(self)@ == (ForestView {
                arena: ArenaView {
                    nodes: old(self)@.arena.nodes.update(fidx.0.id(), (*final(r))@),
                    ..old(self)@.arena
                },
                ..old(self)@
            }),
    {
        self.arena.node_mut(fidx.0)
    }

    /// The roots of `self`, in order.
    pub fn roots(&self) -> (r: Vec<ForestIdx>)
        ensures
            r@ == self@.roots,
    {
        let mut r: Vec<ForestIdx> = Vec::with_capacity(self.roots.len());
        let mut i: usize = 0;
        while i < self.roots.len()
            invariant
                0 <= i <= self@.roots.len(),
                r@ == self@.roots.take(i as int),
            decreases self@.roots.len() - i,
        {
            r.push(self.roots[i]);
            assert(self@.roots.take(i + 1) =~= self@.roots.take(i as int).push(self@.roots[i as int]));
            i = i + 1;
        }
        assert(self@.roots.take(i as int) =~= self@.roots);
        r
    }

    /// Queue `self[fidx]` as garbage, unless it is queued already.
    pub fn add_garbage(&mut self, fidx: ForestIdx)
        requires
            old(self).wf(),
            old(self).has(fidx),
        ensures
            final(self).wf(),
            final(self)@ == (ForestView {
                arena: ArenaView { garbage: enqueue_one(old(self)@.arena.garbage, fidx.0), ..old(self)@.arena },
                ..old(self)@
            }),
    {
        self.arena.add_garbage(fidx.0);
    }

    /// Add a node holding `data`, and make it the last root.
    pub fn push_root(&mut self, data: D) -> (r: ForestIdx)
        requires
            old(self).wf(),
        ensures
            final(self).wf(),
            final(self).has(r),
            (final(self)@.arena, r.0) == old(self)@.arena.allocate(data),
            final(self)@.roots == old(self)@.roots.push(r),
    {
        let root_idx = self.add_node(data);
        self.roots.push(root_idx);
        root_idx
    }

    /// Add a node holding `data`, and make it the `pos`-th root.
    pub fn insert_root(&mut self, pos: usize, data: D) -> (r: ForestIdx)
        requires
            old(self).wf(),
            pos <= old(self)@.roots.len(),
        ensures
            final(self).wf(),
            final(self).has(r),
            (final(self)@.arena, r.0) == old(self)@.arena.allocate(data),
            final(self)@.roots == old(self)@.roots.insert(pos as int, r),
    {
        let root_idx = self.add_node(data);
        self.roots.insert(pos, root_idx);
        root_idx
    }

    /// Replace the list of roots.
    pub fn set_roots(&mut self, roots: Vec<ForestIdx>)
        ensures
            final(self)@ == (ForestView { roots: roots@, ..old(self)@ }),
    {
        self.roots = roots;
    }

    /// Make `fidx` the last root.
    pub fn root(&mut self, fidx: ForestIdx)
        ensures
            final(self)@ == (ForestView { roots: old(self)@.roots.push(fidx), ..old(self)@ }),
    {
        self.roots.push(fidx);
    }

    /// Remove the leftmost occurrence of `fidx` from the list of roots, if
    /// there is one.
    pub fn unroot(&mut self, fidx: ForestIdx)
        ensures
            final(self)@ == (ForestView { roots: old(self)@.roots.remove_value(fidx), ..old(self)@ }),
    {
        let mut i: usize = 0;
        while i < self.roots.len()
            invariant
                self@ == old(self)@,
                0 <= i <= self@.roots.len(),
                forall|j: int| 0 <= j < i ==> self@.roots[j] != fidx,
            decreases self@.roots.len() - i,
        {
            if self.roots[i] == fidx {
                proof {
                    assert(self@.roots.contains(fidx));
                    self@.roots.index_of_first_ensures(fidx);
                    let idx = self@.roots.index_of_first(fidx)->Some_0;
                    assert(idx == i);
                }
                self.roots.remove(i);
                return;
            }
            i = i + 1;
        }
        proof {
            self@.roots.index_of_first_ensures(fidx);
        }
    }

    /// Remove every root.
    pub fn clear_roots(&mut self)
        ensures
            final(self)@ == (ForestView { roots: Seq::empty(), ..old(self)@ }),
    {
        self.roots.clear();
    }

    /// The number of roots.
    pub fn count_roots(&self) -> (r: usize)
        ensures
            r == self@.roots.len(),
    {
        self.roots.len()
    }

    /// If there is a garbage `Node<D>`in `self`, recycle it.
    /// Otherwise, allocate a new one.
    pub fn add_node(&mut self, data: D) -> (r: ForestIdx)
        requires
            old(self).wf(),
        ensures
            final(self).wf(),
            final(self).has(r),
            (final(self)@.arena, r.0) == old(self)@.arena.allocate(data),
            final(self)@.roots == old(self)@.roots,
    {
        ForestIdx(self.arena.add_node(data))
    }

    /// Recycle `self[fidx]`.  Since a node conceptually owns its children,
    /// all descendant nodes and all edges between them are removed as well.
    pub fn rm_node(&mut self, fidx: ForestIdx) -> (r: Result<()>)
        requires
            old(self).wf(),
        ensures
            final(self).wf(),
            final(self)@.roots == old(self)@.roots,
            match r {
                Ok(()) => {
                    &&& old(self).has(fidx)
                    &&& final(self)@.arena == old(self)@.arena.recycle(fidx.0)
                    &&& forall|k: int|
                        0 <= k < old(self)@.arena.preorder(fidx.0).len() ==> final(self)@.arena.is_removed(
                            #[trigger] old(self)@.arena.preorder(fidx.0)[k],
                        )
                },
                Err(e) => {
                    &&& !old(self).has(fidx)
                    &&& e == Error::NodeNotFound(fidx.0)
                    &&& final(self)@ == old(self)@
                },
            },
    {
        self.arena.rm_node(fidx.0)
    }

    /// Add a bidirectional edge between `self[pidx]` and `self[cidx]`: the
    /// former gets the latter as its last child (with `cdata`), the latter
    /// gets the former as its last parent (with `pdata`).
    pub fn add_edge(&mut self, edge: (ForestIdx, ForestIdx), pdata: P, cdata: C)
        requires
            old(self).wf(),
            old(self).has(edge.0),
            old(self).has(edge.1),
        ensures
            final(self).wf(),
            final(self)@.arena == old(self)@.arena.link(edge.0.0, edge.1.0, pdata, cdata),
            final(self)@.roots == old(self)@.roots,
    {
        self.arena.add_edge((edge.0.0, edge.1.0), pdata, cdata)
    }

    /// Insert a bidirectional edge between `self[pidx]` and `self[cidx]`:
    /// `(pidx, pdata)` goes at position `ppos` of the parents of `cidx` (or
    /// last), `(cidx, cdata)` at position `cpos` of the children of `pidx`
    /// (or last).
    pub fn insert_edge(
        &mut self,
        parent: (ForestIdx, P, Option<usize>),
        child: (ForestIdx, C, Option<usize>),
    )
        requires
            old(self).wf(),
            old(self).has(parent.0),
            old(self).has(child.0),
            child.2 matches Some(i) ==> i <= old(self)@.arena.node(parent.0.0).children.len(),
            parent.2 matches Some(i) ==> i <= old(self)@.arena.node(child.0.0).parents.len(),
        ensures
            final(self).wf(),
            final(self)@.arena == old(self)@.arena.link_at(
                parent.0.0,
                child.0.0,
                parent.1,
                child.1,
                parent.2,
                child.2,
            ),
            final(self)@.roots == old(self)@.roots,
    {
        let (pidx, pdata, ppos) = parent;
        let (cidx, cdata, cpos) = child;
        self.arena.insert_edge((pidx.0, pdata, ppos), (cidx.0, cdata, cpos))
    }

    /// Remove the edge between `self[parent_idx]` and `self[child_idx]`,
    /// returning the data of its two ends, or an error if there is none.
    pub fn rm_edge(&mut self, parent_idx: ForestIdx, child_idx: ForestIdx) -> (r: Result<(P, C)>)
        requires
            old(self).wf(),
            old(self).has(parent_idx),
            old(self).has(child_idx),
        ensures
            final(self).wf(),
            final(self)@.roots == old(self)@.roots,
            match r {
                Ok((pdata, cdata)) => {
                    &&& old(self)@.arena.has_edge(parent_idx.0, child_idx.0)
                    &&& final(self)@.arena == old(self)@.arena.unlink(parent_idx.0, child_idx.0)
                    &&& cdata == old(self)@.arena.node(parent_idx.0).children[first_index(
                        old(self)@.arena.node(parent_idx.0).children,
                        child_idx.0,
                    )].1
                    &&& pdata == old(self)@.arena.node(child_idx.0).parents[first_index(
                        old(self)@.arena.node(child_idx.0).parents,
                        parent_idx.0,
                    )].1
                },
                Err(e) => {
                    &&& !old(self)@.arena.has_edge(parent_idx.0, child_idx.0)
                    &&& e == Error::ChildNotFound { node_idx: parent_idx.0, child_idx: child_idx.0 }
                    &&& final(self)@ == old(self)@
                },
            },
    {
        self.arena.rm_edge(parent_idx.0, child_idx.0)
    }

    /// The first parent of `self[node_idx]`, if it has any.
    pub fn parent_of(&self, node_idx: ForestIdx) -> (r: Option<ForestIdx>)
        requires
            self.has(node_idx),
        ensures
            r == if self@.arena.node(node_idx.0).parents.len() > 0 {
                Some(ForestIdx(self@.arena.node(node_idx.0).parents[0].0))
            } else {
                None
            },
    {
        let node = self.arena.node(node_idx.0);
        if node.parents.len() > 0 {
            Some(ForestIdx(node.parents[0].0))
        } else {
            None
        }
    }

    /// `self[fidx]` and its ancestors, layer by layer upwards.
    pub fn self_or_ancestors_of(&self, fidx: ForestIdx) -> (r: Vec<ForestIdx>)
        requires
            self.wf(),
            self.has(fidx),
        ensures
            r@ == fidxs(self@.arena.ancestry_of(fidx.0)),
    {
        to_fidxs(self.arena.self_or_ancestors_of(fidx.0))
    }

    /// The ancestors of `self[fidx]`, layer by layer upwards.
    pub fn ancestors_of(&self, fidx: ForestIdx) -> (r: Vec<ForestIdx>)
        requires
            self.wf(),
            self.has(fidx),
        ensures
            r@ == fidxs(self@.arena.ancestry_of(fidx.0).filter(|y: NodeIdx| y != fidx.0)),
    {
        to_fidxs(self.arena.ancestors_of(fidx.0))
    }

    /// The children of each parent of `self[fidx]`, `fidx` included.
    pub fn self_or_siblings_of(&self, fidx: ForestIdx) -> (r: Vec<ForestIdx>)
        requires
            self.wf(),
            self.has(fidx),
        ensures
            r@ == fidxs(self@.arena.neighbors_of_all(self@.arena.parents_of(fidx.0), false)),
    {
        to_fidxs(self.arena.self_or_siblings_of(fidx.0))
    }

    /// The children of each parent of `self[fidx]`, except `fidx` itself.
    pub fn siblings_of(&self, fidx: ForestIdx) -> (r: Vec<ForestIdx>)
        requires
            self.wf(),
            self.has(fidx),
        ensures
            r@ == fidxs(
                self@.arena.neighbors_of_all(self@.arena.parents_of(fidx.0), false).filter(
                    |y: NodeIdx| y != fidx.0,
                ),
            ),
    {
        to_fidxs(self.arena.siblings_of(fidx.0))
    }

    /// The children of `self[fidx]`, leftmost first.
    pub fn children_of(&self, fidx: ForestIdx) -> (r: Vec<ForestIdx>)
        requires
            self.has(fidx),
        ensures
            r@ == fidxs(self@.arena.children_of(fidx.0)),
    {
        to_fidxs(self.arena.children_of(fidx.0))
    }

    /// The nodes below (and including) `self[fidx]`, in pre-order.
    pub fn self_or_descendants_of(&self, fidx: ForestIdx) -> (r: Vec<ForestIdx>)
        requires
            self.wf(),
            self.has(fidx),
        ensures
            r@ == fidxs(self@.arena.preorder(fidx.0)),
    {
        to_fidxs(self.arena.self_or_descendants_of(fidx.0))
    }

    /// The nodes below `self[fidx]`, in pre-order.
    pub fn descendants_of(&self, fidx: ForestIdx) -> (r: Vec<ForestIdx>)
        requires
            self.wf(),
            self.has(fidx),
        ensures
            r@ == fidxs(self@.arena.preorder(fidx.0).filter(|y: NodeIdx| y != fidx.0)),
    {
        to_fidxs(self.arena.descendants_of(fidx.0))
    }

    /// The rows in which `self` is displayed: for each root in turn, each
    /// node of its tree in pre-order, with its number of ancestors, by which
    /// its row is indented (one `| ` each) before the node's index and data.
    pub fn outline(&self) -> (r: Vec<(usize, ForestIdx)>)
        requires
            self.wf(),
            forall|k: int| 0 <= k < self@.roots.len() ==> self.has(#[trigger] self@.roots[k]),
        ensures
            rows_view(r@) == forest_outline(self@.arena, self@.roots),
    {
        let ghost a = self@.arena;
        let ghost roots = self@.roots;
        let mut r: Vec<(usize, ForestIdx)> = Vec::new();
        let mut i: usize = 0;
        assert(roots.take(0) =~= Seq::<ForestIdx>::empty());
        while i < self.roots.len()
            invariant
                a == self@.arena,
                roots == self@.roots,
                a.wf(),
                forall|k: int| 0 <= k < roots.len() ==> a.has(#[trigger] roots[k].0),
                0 <= i <= roots.len(),
                rows_view(r@) == forest_outline(a, roots.take(i as int)),
            decreases roots.len() - i,
        {
            assert(a.has(roots[i as int].0));
            let rows = self.arena.outline_from(self.roots[i].0);
            let ghost base = rows_view(r@);
            let ghost tree_rows = forest_rows(rows_view(rows@));
            let mut j: usize = 0;
            while j < rows.len()
                invariant
                    0 <= j <= rows@.len(),
                    tree_rows == forest_rows(rows_view(rows@)),
                    rows_view(r@) == base + tree_rows.take(j as int),
                decreases rows@.len() - j,
            {
                let (depth, node) = rows[j];
                let ghost r0 = r@;
                r.push((depth, ForestIdx(node)));
                assert(tree_rows[j as int] == (depth as nat, ForestIdx(node)));
                assert(rows_view(r@) =~= rows_view(r0).push((depth as nat, ForestIdx(node))));
                assert(tree_rows.take(j + 1) =~= tree_rows.take(j as int).push(tree_rows[j as int]));
                j = j + 1;
            }
            proof {
                assert(tree_rows.take(j as int) =~= tree_rows);
                let t = roots.take(i + 1);
                assert(t.drop_last() =~= roots.take(i as int));
                assert(t.last() == roots[i as int]);
            }
            i = i + 1;
        }
        assert(roots.take(i as int) =~= roots);
        r
    }

    /// The nodes below (and including) `self[fidx]`, in pre-order.
    pub fn dfs_pre(&self, fidx: ForestIdx) -> (r: Vec<ForestIdx>)
        requires
            self.wf(),
            self.has(fidx),
        ensures
            r@ == fidxs(self@.arena.preorder(fidx.0)),
    {
        to_fidxs(self.arena.dfs_pre(fidx.0))
    }

    /// The nodes below (and including) `self[fidx]`, in post-order.
    pub fn dfs_post(&self, fidx: ForestIdx) -> (r: Vec<ForestIdx>)
        requires
            self.wf(),
            self.has(fidx),
        ensures
            r@ == fidxs(self@.arena.post_from(fidx.0, self@.arena.nodes.len())),
    {
        to_fidxs(self.arena.dfs_post(fidx.0))
    }

    /// The depth-first traversal events below (and including) `self[fidx]`.
    pub fn dfs_base(&self, fidx: ForestIdx) -> (r: Vec<(TraversalType, ForestIdx)>)
        requires
            self.wf(),
            self.has(fidx),
        ensures
            r@ == self@.arena.events_from(fidx.0, self@.arena.nodes.len()).map_values(
                |e: (TraversalType, NodeIdx)| (e.0, ForestIdx(e.1)),
            ),
    {
        let events = self.arena.dfs_base(fidx.0);
        let ghost es = events@;
        let mut r: Vec<(TraversalType, ForestIdx)> = Vec::with_capacity(events.len());
        let mut i: usize = 0;
        while i < events.len()
            invariant
                es == events@,
                0 <= i <= es.len(),
                r@ == es.take(i as int).map_values(|e: (TraversalType, NodeIdx)| (e.0, ForestIdx(e.1))),
            decreases es.len() - i,
        {
            let (t, x) = events[i];
            r.push((t, ForestIdx(x)));
            proof {
                assert(es.take(i + 1) == es.take(i as int).push(es[i as int]));
                assert(r@ =~= es.take(i + 1).map_values(
                    |e: (TraversalType, NodeIdx)| (e.0, ForestIdx(e.1)),
                ));
            }
            i = i + 1;
        }
        assert(es.take(i as int) =~= es);
        r
    }

    /// The graph of `self[root_idx]` and the nodes below it, laid out top
    /// to bottom: for each node in breadth-first order, a node statement
    /// labelled with its data, then a purple edge to each parent and a
    /// charcoal edge to each child, each labelled with the edge's data.  The
    /// labels are what `node_label`, `parent_label` and `child_label` make
    /// of the data.
    pub fn to_graphviz_graph<NL, PL, CL>(
        &self,
        root_idx: ForestIdx,
        node_label: NL,
        parent_label: PL,
        child_label: CL,
    ) -> (r: DotGraph) where NL: Fn(&D) -> String, PL: Fn(&P) -> String, CL: Fn(&C) -> String
        requires
            self.wf(),
            self.has(root_idx),
            forall|d: &D| #[trigger] node_label.requires((d,)),
            forall|p: &P| #[trigger] parent_label.requires((p,)),
            forall|c: &C| #[trigger] child_label.requires((c,)),
        ensures
            r.bgcolor matches Some(b) && b@ == "#3c3c3c"@,
            r.rankdir == Some(DotRankDir::TopToBottom),
            r.stmts@.len() == graph_items(self@.arena, self@.arena.bfs_from(root_idx.0)).len(),
            forall|i: int|
                0 <= i < r.stmts@.len() ==> item_stmt(
                    self@.arena,
                    #[trigger] graph_items(self@.arena, self@.arena.bfs_from(root_idx.0))[i],
                    r.stmts@[i],
                    node_label,
                    parent_label,
                    child_label,
                ),
            forall|j: int, k: int|
                #![trigger self@.arena.node(self@.arena.bfs_from(root_idx.0)[j]).children[k]]
                0 <= j < self@.arena.bfs_from(root_idx.0).len() && 0 <= k < self@.arena.node(
                    self@.arena.bfs_from(root_idx.0)[j],
                ).children.len() ==> exists|i: int|
                    0 <= i < r.stmts@.len() && edge_stmt_to(
                        #[trigger] r.stmts@[i],
                        self@.arena.bfs_from(root_idx.0)[j],
                        self@.arena.node(self@.arena.bfs_from(root_idx.0)[j]).children[k].0,
                        "#36454F"@,
                    ) && edge_label_by(
                        r.stmts@[i],
                        child_label,
                        &self@.arena.node(self@.arena.bfs_from(root_idx.0)[j]).children[k].1,
                    ),
            forall|j: int, k: int|
                #![trigger self@.arena.node(self@.arena.bfs_from(root_idx.0)[j]).parents[k]]
                0 <= j < self@.arena.bfs_from(root_idx.0).len() && 0 <= k < self@.arena.node(
                    self@.arena.bfs_from(root_idx.0)[j],
                ).parents.len() ==> exists|i: int|
                    0 <= i < r.stmts@.len() && edge_stmt_to(
                        #[trigger] r.stmts@[i],
                        self@.arena.bfs_from(root_idx.0)[j],
                        self@.arena.node(self@.arena.bfs_from(root_idx.0)[j]).parents[k].0,
                        "purple"@,
                    ) && edge_label_by(
                        r.stmts@[i],
                        parent_label,
                        &self@.arena.node(self@.arena.bfs_from(root_idx.0)[j]).parents[k].1,
                    ),
    {
        let r = self.arena.to_graphviz_graph(root_idx.0, node_label, parent_label, child_label);
        proof {
            crate::graphviz::lemma_graph_has_every_edge(
                self@.arena,
                self@.arena.bfs_from(root_idx.0),
                r.stmts@,
                node_label,
                parent_label,
                child_label,
            );
        }
        r
    }

    /// The nodes of `self` in breadth-first order, starting at `fidx`.
    pub fn bfs(&self, fidx: ForestIdx) -> (r: Vec<ForestIdx>)
        requires
            self.wf(),
            self.has(fidx),
        ensures
            r@ == fidxs(self@.arena.bfs_from(fidx.0)),
    {
        to_fidxs(self.arena.bfs(fidx.0))
    }

    /// Succeed when `self[fidx]` has a child, else report it.
    pub fn ensure_node_is_branch(&self, fidx: ForestIdx) -> (r: Result<()>)
        requires
            self.has(fidx),
        ensures
            r == if self@.arena.node(fidx.0).children.len() != 0 {
                Ok::<(), Error>(())
            } else {
                Err(Error::ExpectedBranchNode(fidx.0))
            },
    {
        if self.arena.node(fidx.0).is_branch_node() {
            Ok(())
        } else {
            Err(Error::ExpectedBranchNode(fidx.0))
        }
    }

    /// Succeed when `self[fidx]` has no children, else report it.
    pub fn ensure_node_is_leaf(&self, fidx: ForestIdx) -> (r: Result<()>)
        requires
            self.has(fidx),
        ensures
            r == if self@.arena.node(fidx.0).children.len() == 0 {
                Ok::<(), Error>(())
            } else {
                Err(Error::ExpectedLeafNode(fidx.0))
            },
    {
        if self.arena.node(fidx.0).is_leaf_node() {
            Ok(())
        } else {
            Err(Error::ExpectedLeafNode(fidx.0))
        }
    }

    /// Succeed when `self[fidx]` has no parents, else report it.
    pub fn ensure_node_is_root(&self, fidx: ForestIdx) -> (r: Result<()>)
        requires
            self.has(fidx),
        ensures
            r == if self@.arena.node(fidx.0).parents.len() == 0 {
                Ok::<(), Error>(())
            } else {
                Err(Error::ExpectedRootNode(fidx.0))
            },
    {
        if self.arena.node(fidx.0).is_root_node() {
            Ok(())
        } else {
            Err(Error::ExpectedRootNode(fidx.0))
        }
    }

    /// Make `self[subroot_idx]` the last child node of `self[parent_idx]`:
    /// its edge to its first parent (if any) is removed, and an edge with
    /// default data from `parent_idx` to it is added.
    pub fn move_subtree(&mut self, parent_idx: ForestIdx, subroot_idx: ForestIdx) -> (r: Result<()>) where
        P: Default,
        C: Default,

        requires
            old(self).wf(),
            old(self).has(parent_idx),
            old(self).has(subroot_idx),
        ensures
            final(self).wf(),
            r is Ok,
            final(self)@.roots == old(self)@.roots,
            exists|pdata: P, cdata: C|
                {
                    &&& is_default(pdata)
                    &&& is_default(cdata)
                    &&& final(self)@.arena == old(self)@.arena.detach_first_parent(subroot_idx.0).link(
                        parent_idx.0,
                        subroot_idx.0,
                        pdata,
                        cdata,
                    )
                },
    {
        let ghost a0 = self@.arena;
        if let Some(old_parent_idx) = self.parent_of(subroot_idx) {
            proof {
                lemma_first_parent_edge(a0, subroot_idx.0);
            }
            match self.arena.rm_edge(old_parent_idx.0, subroot_idx.0) {
                Ok(_) => {},
                Err(e) => {
                    assert(false);
                    return Err(e);
                },
            }
        }
        let ghost a1 = self@.arena;
        assert(a1 == a0.detach_first_parent(subroot_idx.0));
        let pdata = P::default();
        let cdata = C::default();
        let ghost gp = pdata;
        let ghost gc = cdata;
        self.arena.add_edge((parent_idx.0, subroot_idx.0), pdata, cdata);
        assert(is_default(gp) && is_default(gc) && self@.arena == a1.link(parent_idx.0, subroot_idx.0, gp, gc));
        Ok(())
    }

    /// Replace the subtree rooted @ `self[target_idx]` with the subtree
    /// rooted @ `self[subroot_idx]`.  This means that `self[target_idx]`
    /// is removed from `self` and `self[subroot_idx]` takes its place.
    pub fn replace_subtree(&mut self, target_idx: ForestIdx, subroot_idx: ForestIdx) -> (r: Result<()>) where
        P: Default,
        C: Default,

        requires
            old(self).wf(),
            old(self).has(target_idx),
            old(self).has(subroot_idx),
        ensures
            final(self).wf(),
            r is Ok,
            final(self)@.roots == old(self)@.roots,
            exists|pdata: P, cdata: C|
                {
                    &&& is_default(pdata)
                    &&& is_default(cdata)
                    &&& final(self)@.arena == old(self)@.arena.detach_first_parent(subroot_idx.0).take_place_of(
                        target_idx.0,
                        subroot_idx.0,
                        pdata,
                        cdata,
                    ).recycle(target_idx.0)
                },
    {
        let ghost a0 = self@.arena;
        if let Some(parent_idx) = self.parent_of(subroot_idx) {
            proof {
                lemma_first_parent_edge(a0, subroot_idx.0);
            }
            match self.arena.rm_edge(parent_idx.0, subroot_idx.0) {
                Ok(_) => {},
                Err(e) => {
                    assert(false);
                    return Err(e);
                },
            }
        }
        let ghost a1 = self@.arena;
        assert(a1 == a0.detach_first_parent(subroot_idx.0));
        let pdata = P::default();
        let cdata = C::default();
        if let Some(parent_idx) = self.parent_of(target_idx) {
            proof {
                lemma_first_parent_edge(a1, target_idx.0);
                lemma_first_index_bounds(a1.node(parent_idx.0).children, target_idx.0);
            }
            let child_pos = self.arena.node(parent_idx.0).get_child_ordinal(target_idx.0);
            match self.arena.rm_edge(parent_idx.0, target_idx.0) {
                Ok(_) => {},
                Err(e) => {
                    assert(false);
                    return Err(e);
                },
            }
            self.arena.insert_edge((parent_idx.0, pdata, None), (subroot_idx.0, cdata, child_pos));
        }
        assert(self@.arena == a1.take_place_of(target_idx.0, subroot_idx.0, pdata, cdata));
        match self.arena.rm_node(target_idx.0) {
            Ok(()) => {},
            Err(e) => {
                assert(false);
                return Err(e);
            },
        }
        Ok(())
    }

    /// Remove a sub-tree rooted in `self[fidx]` from `self`, visiting its
    /// nodes in pre-order.  If `force`, each visited node is removed
    /// regardless of whether or not it has any parents; if `!force`, only
    /// visited nodes that are orphans by then are, i.e. it respects the
    /// ownership of the parent(s).  A removed node loses its parent edges,
    /// leaves the roots, is queued as garbage (unless it is queued already),
    /// and loses its child edges, each former child becoming a root.  When
    /// forced, or when the nodes below `fidx` form a tree, every one of them
    /// ends without edges.
    pub fn rm_subtree(&mut self, fidx: ForestIdx, force: bool) -> (r: Result<()>)
        requires
            old(self).wf(),
        ensures
            final(self).wf(),
            match r {
                Ok(()) => {
                    &&& old(self).has(fidx)
                    &&& final(self)@ == old(self)@.sweep(old(self)@.arena.preorder(fidx.0), force)
                    &&& (force || old(self)@.is_tree_below(fidx.0)) ==> forall|k: int|
                        0 <= k < old(self)@.arena.preorder(fidx.0).len() ==> final(self)@.arena.is_removed(
                            #[trigger] old(self)@.arena.preorder(fidx.0)[k],
                        )
                },
                Err(e) => {
                    &&& !old(self).has(fidx)
                    &&& e == Error::NodeNotFound(fidx.0)
                    &&& final(self)@ == old(self)@
                },
            },
    {
        if fidx.0.0 >= self.arena.physical_size().get() {
            return Err(Error::NodeNotFound(fidx.0));
        }
        let ghost f0 = self@;
        let order = self.arena.dfs_pre(fidx.0);
        let ghost ord = order@;
        proof {
            crate::arena::lemma_preorder_in_range(f0.arena, fidx.0);
            assert(ord.take(0) =~= Seq::<NodeIdx>::empty());
        }
        let mut i: usize = 0;
        while i < order.len()
            invariant
                f0.arena.wf(),
                f0 == old(self)@,
                ord == order@,
                forall|k: int| 0 <= k < ord.len() ==> f0.arena.has(#[trigger] ord[k]),
                0 <= i <= ord.len(),
                self.wf(),
                self@.arena.nodes.len() == f0.arena.nodes.len(),
                self@ == f0.sweep(ord.take(i as int), force),
            decreases ord.len() - i,
        {
            let x = order[i];
            assert(f0.arena.has(ord[i as int]));
            proof {
                assert(ord.take(i + 1).drop_last() =~= ord.take(i as int));
                assert(ord.take(i + 1).last() == x);
            }
            let ghost w = self@;
            if force || !self.arena.node(x).has_parents() {
                self.arena.detach_parents(x);
                self.unroot(ForestIdx(x));
                self.arena.add_garbage(x);
                let ghost a2 = self@.arena;
                let cs = self.arena.children_of(x);
                self.arena.detach_children(x);
                let mut more = to_fidxs(cs);
                self.roots.append(&mut more);
                proof {
                    assert(self@ =~= w.sweep_step(x, force));
                }
            }
            i = i + 1;
        }
        assert(ord.take(i as int) =~= ord);
        proof {
            lemma_sweep_removes(f0, ord, force);
            if !force && f0.is_tree_below(fidx.0) {
                lemma_sweep_removes_tree(f0, fidx.0);
            }
        }
        Ok(())
    }

    /// Remove all descendant nodes of `self[fidx]`, but not `self[fidx]`
    /// itself: each child in turn is unlinked and recycled with everything
    /// below it.  Return an error for the first child that is no longer
    /// linked to `fidx` when its turn comes; the children before it stay
    /// removed.
    pub fn rm_descendants_of(&mut self, fidx: ForestIdx) -> (r: Result<()>)
        requires
            old(self).wf(),
            old(self).has(fidx),
        ensures
            final(self).wf(),
            final(self)@.roots == old(self)@.roots,
            final(self)@.arena == prune(
                old(self)@.arena,
                fidx.0,
                old(self)@.arena.children_of(fidx.0),
            ).0,
            match prune(old(self)@.arena, fidx.0, old(self)@.arena.children_of(fidx.0)).1 {
                None => r is Ok,
                Some(c) => r == Err::<(), Error>(Error::ChildNotFound { node_idx: fidx.0, child_idx: c }),
            },
    {
        let ghost f0 = self@;
        let children = self.arena.children_of(fidx.0);
        let ghost cs = children@;
        proof {
            assert forall|k: int| 0 <= k < cs.len() implies f0.arena.has(#[trigger] cs[k]) by {
                assert(cs[k] == f0.arena.node(fidx.0).children[k].0);
            }
            assert(cs.take(0) =~= Seq::<NodeIdx>::empty());
        }
        let mut i: usize = 0;
        while i < children.len()
            invariant
                f0.arena.wf(),
                f0 == old(self)@,
                f0.arena.has(fidx.0),
                cs == children@,
                cs == f0.arena.children_of(fidx.0),
                forall|k: int| 0 <= k < cs.len() ==> f0.arena.has(#[trigger] cs[k]),
                0 <= i <= cs.len(),
                self.wf(),
                self@.arena.nodes.len() == f0.arena.nodes.len(),
                self@.roots == f0.roots,
                prune(f0.arena, fidx.0, cs.take(i as int)) == (self@.arena, None::<NodeIdx>),
            decreases cs.len() - i,
        {
            let c = children[i];
            assert(f0.arena.has(cs[i as int]));
            proof {
                assert(cs.take(i + 1).drop_last() =~= cs.take(i as int));
                assert(cs.take(i + 1).last() == c);
            }
            match self.arena.rm_edge(fidx.0, c) {
                Ok(_) => {},
                Err(e) => {
                    proof {
                        let rest = cs.subrange(i + 1, cs.len() as int);
                        lemma_prune_stuck(f0.arena, fidx.0, cs.take(i + 1), rest);
                        assert(cs.take(i + 1) + rest =~= cs);
                    }
                    return Err(e);
                },
            }
            match self.arena.rm_node(c) {
                Ok(()) => {},
                Err(e) => {
                    assert(false);
                    return Err(e);
                },
            }
            i = i + 1;
        }
        assert(cs.take(i as int) =~= cs);
        Ok(())
    }

    /// Copy the subtree (rooted in `root_idx`) in `src` to `self`, making
    /// it a subtree of `self` in the process.  Specifically, `src[root_idx]`
    /// becomes a child node of `self[dst_node_idx]`.  The nodes are copied
    /// in pre-order, each under the copy of its first parent.  Note that the
    /// `ForestIdx`s of the nodes in `src` will *NOT* be valid in `self`.
    pub fn copy_subtree(&mut self, dst_node_idx: ForestIdx, src_root: (&Self, ForestIdx)) -> (r: Result<()>) where
        D: Clone,
        P: Clone + Default,
        C: Clone + Default,

        requires
            old(self).wf(),
            old(self).has(dst_node_idx),
            src_root.0.wf(),
            src_root.0.has(src_root.1),
            copyable(src_root.0@.arena, src_root.1.0),
        ensures
            final(self).wf(),
            r is Ok,
            final(self)@.roots == old(self)@.roots,
            exists|vals: Seq<(D, P, C)>|
                #[trigger] copied_values(
                    src_root.0@.arena,
                    src_root.1.0,
                    src_root.0@.arena.preorder(src_root.1.0),
                    vals,
                ) && final(self)@.arena == copy_steps(
                    old(self)@.arena,
                    src_root.0@.arena,
                    dst_node_idx.0,
                    src_root.0@.arena.preorder(src_root.1.0),
                    vals,
                ).0 && (src_root.0@.arena.preorder(src_root.1.0).no_duplicates() ==> keeps_copied_edges(
                    src_root.0@.arena,
                    src_root.1.0,
                    final(self)@.arena,
                    copy_steps(
                        old(self)@.arena,
                        src_root.0@.arena,
                        dst_node_idx.0,
                        src_root.0@.arena.preorder(src_root.1.0),
                        vals,
                    ).1,
                ) && keeps_copied_data(
                    src_root.0@.arena,
                    src_root.1.0,
                    final(self)@.arena,
                    copy_steps(
                        old(self)@.arena,
                        src_root.0@.arena,
                        dst_node_idx.0,
                        src_root.0@.arena.preorder(src_root.1.0),
                        vals,
                    ).1,
                )),
    {
        let (src, root_idx) = src_root;
        let ghost sv = src@.arena;
        let ghost a0 = self@.arena;
        let order = src.arena.dfs_pre(root_idx.0);
        let ghost ord = order@;
        let n_src = src.arena.physical_size().get();
        let mut map: Vec<Option<NodeIdx>> = Vec::new();
        while map.len() < n_src
            invariant
                map@.len() <= n_src,
                forall|i: int| 0 <= i < map@.len() ==> map@[i] is None,
            decreases n_src - map@.len(),
        {
            map.push(None);
        }
        let ghost mut vals: Seq<(D, P, C)> = Seq::empty();
        proof {
            crate::arena::lemma_preorder_in_range(sv, root_idx.0);
            assert(ord.take(0) =~= Seq::<NodeIdx>::empty());
            assert(copy_state_ok(self@.arena, map@, a0, sv, dst_node_idx.0, ord.take(0), vals));
        }
        let mut k: usize = 0;
        while k < order.len()
            invariant
                sv == src@.arena,
                sv.wf(),
                a0 == old(self)@.arena,
                a0.wf(),
                a0.has(dst_node_idx.0),
                ord == order@,
                ord == sv.preorder(root_idx.0),
                copyable(sv, root_idx.0),
                forall|j: int| 0 <= j < ord.len() ==> sv.has(#[trigger] ord[j]),
                0 <= k <= ord.len(),
                map@.len() == sv.nodes.len(),
                self.wf(),
                self@.roots == old(self)@.roots,
                vals.len() == k,
                copied_values(sv, root_idx.0, ord.take(k as int), vals),
                copy_state_ok(self@.arena, map@, a0, sv, dst_node_idx.0, ord.take(k as int), vals),
            decreases ord.len() - k,
        {
            let y = order[k];
            assert(sv.has(ord[k as int]));
            let ynode = src.arena.node(y);
            proof {
                lemma_copy_state_has_at(self@.arena, map@, a0, sv, dst_node_idx.0, ord.take(k as int), vals);
            }
            let dst_parent = if ynode.parents.len() == 0 {
                dst_node_idx.0
            } else {
                let p = ynode.parents[0].0;
                proof {
                    lemma_copyable_at(sv, root_idx.0, k as int);
                    assert(sv.has(sv.nodes[y.id()].parents[0].0));
                    lemma_copy_state_lookup(self@.arena, map@, a0, sv, dst_node_idx.0, ord.take(k as int), vals, p);
                }
                match map[p.0] {
                    Some(d) => d,
                    None => {
                        assert(false);
                        return Err(Error::NodeNotFound(p));
                    },
                }
            };
            proof {
                let m = copy_steps(a0, sv, dst_node_idx.0, ord.take(k as int), vals).1;
                assert(dst_parent == if sv.node(y).parents.len() == 0 {
                    dst_node_idx.0
                } else {
                    m[sv.node(y).parents[0].0]
                });
            }
            let data = ynode.data.clone();
            let ghost gd = data;
            let ghost wb = self@.arena;
            let new_idx = self.arena.add_node(data);
            let (pdata, cdata) = if y == root_idx.0 {
                (P::default(), C::default())
            } else {
                let p = ynode.parents[0].0;
                proof {
                    lemma_copyable_at(sv, root_idx.0, k as int);
                    assert(sv.has(sv.nodes[y.id()].parents[0].0));
                    crate::arena::lemma_first_parent_edge(sv, y);
                    lemma_first_index_bounds(sv.node(y).parents, p);
                }
                let pe = src.arena.parent_edge(y, p);
                let ce = src.arena.child_edge(p, y);
                match (pe, ce) {
                    (Some(pe), Some(ce)) => ((*pe.data).clone(), (*ce.data).clone()),
                    _ => {
                        assert(false);
                        return Err(Error::NodeNotFound(p));
                    },
                }
            };
            let ghost gp = pdata;
            let ghost gc = cdata;
            let ghost w1 = self@.arena;
            self.arena.add_edge((dst_parent, new_idx), pdata, cdata);
            let ghost map0 = map@;
            map.set(y.0, Some(new_idx));
            proof {
                lemma_copy_step(wb, w1, self@.arena, map0, map@, a0, sv, dst_node_idx.0, ord, k as int, vals, gd, gp, gc, dst_parent, new_idx);
                lemma_copied_values_step(sv, root_idx.0, ord, k as int, vals, gd, gp, gc);
                vals = vals.push((gd, gp, gc));
            }
            k = k + 1;
        }
        assert(ord.take(k as int) =~= ord);
        proof {
            if ord.no_duplicates() {
                lemma_copy_keeps_edge_data(a0, sv, root_idx.0, dst_node_idx.0, vals);
                lemma_copy_keeps_node_data(a0, sv, root_idx.0, dst_node_idx.0, vals);
            }
        }
        Ok(())
    }

    /// Compare `self` with `other` logically: garbage nodes are left out,
    /// and the remaining nodes are compared in depth-first pre-order, root
    /// by root.  Two paired nodes must both be roots, or both have one
    /// parent where the parent of the first was paired with the parent of
    /// the second; they must have as many children and equal data.
    pub fn logical_eq(&self, other: &Self) -> (r: bool) where
        D: PartialEq,

        requires
            self.wf(),
            other.wf(),
            forall|k: int| 0 <= k < self@.roots.len() ==> self.has(#[trigger] self@.roots[k]),
            forall|k: int| 0 <= k < other@.roots.len() ==> other.has(#[trigger] other@.roots[k]),
            self@.roots.len() == other@.roots.len() ==> walk_total_until(
                self@.arena,
                other@.arena,
                forest_walk(self@, other@),
            ),
        ensures
            self@.arena.nodes.len() - self@.arena.garbage.len() != other@.arena.nodes.len()
                - other@.arena.garbage.len() ==> !r,
            self@.roots.len() != other@.roots.len() ==> !r,
            <D as PartialEqSpec>::obeys_eq_spec() ==> r == logically_equal(self@, other@),
    {
        proof {
            crate::arena::lemma_logical_size_counts_live(self@.arena);
            crate::arena::lemma_logical_size_counts_live(other@.arena);
        }
        if self.logical_size().0 != other.logical_size().0 {
            return false;
        }
        if self.roots.len() != other.roots.len() {
            return false;
        }
        let sroots = to_nidxs(&self.roots);
        let oroots = to_nidxs(&other.roots);
        proof {
            assert forall|k: int| 0 <= k < sroots@.len() implies self@.arena.has(#[trigger] sroots@[k]) by {
                assert(self.has(self@.roots[k]));
            }
            assert forall|k: int| 0 <= k < oroots@.len() implies other@.arena.has(#[trigger] oroots@[k]) by {
                assert(other.has(other@.roots[k]));
            }
        }
        self.arena.walk_eq(&other.arena, &sroots, &oroots)
    }
    /// The number of roots that both `self` and `other` have, and their
    /// node indices, in order.
    fn common_roots(&self, other: &Self) -> (r: (Vec<NodeIdx>, Vec<NodeIdx>))
        requires
            forall|k: int| 0 <= k < self@.roots.len() ==> self.has(#[trigger] self@.roots[k]),
            forall|k: int| 0 <= k < other@.roots.len() ==> other.has(#[trigger] other@.roots[k]),
        ensures
            ({
                let n = if self@.roots.len() <= other@.roots.len() {
                    self@.roots.len()
                } else {
                    other@.roots.len()
                };
                &&& r.0@ == nidxs(self@.roots).take(n as int)
                &&& r.1@ == nidxs(other@.roots).take(n as int)
            }),
            r.0@.len() == r.1@.len(),
            forall|k: int| 0 <= k < r.0@.len() ==> self@.arena.has(#[trigger] r.0@[k]),
            forall|k: int| 0 <= k < r.1@.len() ==> other@.arena.has(#[trigger] r.1@[k]),
    {
        let n = if self.roots.len() <= other.roots.len() {
            self.roots.len()
        } else {
            other.roots.len()
        };
        let sroots = to_nidxs_prefix(&self.roots, n);
        let oroots = to_nidxs_prefix(&other.roots, n);
        proof {
            assert forall|k: int| 0 <= k < sroots@.len() implies self@.arena.has(#[trigger] sroots@[k]) by {
                assert(self.has(self@.roots[k]));
            }
            assert forall|k: int| 0 <= k < oroots@.len() implies other@.arena.has(#[trigger] oroots@[k]) by {
                assert(other.has(other@.roots[k]));
            }
        }
        (sroots, oroots)
    }

    /// Order `self` against `other` logically by `partial_cmp`: first by
    /// logical size, then pair by pair along the lockstep pre-order walk
    /// below the roots that both have.  The first pair that differs
    /// decides: by its parent entries, unless both nodes are without
    /// parent or have one parent each, paired before; then by its numbers of
    /// children; then by its data, when that is ordered one way or the
    /// other.
    pub fn logical_partial_cmp(&self, other: &Self) -> (r: Option<Ordering>) where D: PartialOrd, P: PartialOrd
        requires
            self.wf(),
            other.wf(),
            forall|k: int| 0 <= k < self@.roots.len() ==> self.has(#[trigger] self@.roots[k]),
            forall|k: int| 0 <= k < other@.roots.len() ==> other.has(#[trigger] other@.roots[k]),
            self@.arena.nodes.len() - self@.arena.garbage.len() == other@.arena.nodes.len()
                - other@.arena.garbage.len() ==> walk_total_until(
                self@.arena,
                other@.arena,
                forest_order_walk(self@, other@),
            ),
        ensures
            self@.arena.nodes.len() - self@.arena.garbage.len() < other@.arena.nodes.len()
                - other@.arena.garbage.len() ==> r == Some(Ordering::Less),
            self@.arena.nodes.len() - self@.arena.garbage.len() > other@.arena.nodes.len()
                - other@.arena.garbage.len() ==> r == Some(Ordering::Greater),
            (partial_sound::<D>() && partial_sound::<P>()) ==> r == option_ordering_of(
                sized_walk_order(
                    self@.arena,
                    other@.arena,
                    forest_order_walk(self@, other@),
                    true,
                    partial_orders::<D>(),
                    partial_orders::<P>(),
                ),
            ),
    {
        proof {
            crate::arena::lemma_logical_size_counts_live(self@.arena);
            crate::arena::lemma_logical_size_counts_live(other@.arena);
        }
        let ss = self.logical_size().0;
        let os = other.logical_size().0;
        if ss < os {
            return Some(Ordering::Less);
        }
        if ss > os {
            return Some(Ordering::Greater);
        }
        let (sroots, oroots) = self.common_roots(other);
        match self.arena.walk_partial_order(&other.arena, &sroots, &oroots, true) {
            Some(d) => to_option_ordering(d),
            None => Some(Ordering::Equal),
        }
    }

    /// Order `self` against `other` logically by `cmp`, in the same way as
    /// `logical_partial_cmp`.
    pub fn logical_cmp(&self, other: &Self) -> (r: Ordering) where D: Ord, P: Ord
        requires
            self.wf(),
            other.wf(),
            forall|k: int| 0 <= k < self@.roots.len() ==> self.has(#[trigger] self@.roots[k]),
            forall|k: int| 0 <= k < other@.roots.len() ==> other.has(#[trigger] other@.roots[k]),
            self@.arena.nodes.len() - self@.arena.garbage.len() == other@.arena.nodes.len()
                - other@.arena.garbage.len() ==> walk_total_until(
                self@.arena,
                other@.arena,
                forest_order_walk(self@, other@),
            ),
        ensures
            self@.arena.nodes.len() - self@.arena.garbage.len() < other@.arena.nodes.len()
                - other@.arena.garbage.len() ==> r == Ordering::Less,
            self@.arena.nodes.len() - self@.arena.garbage.len() > other@.arena.nodes.len()
                - other@.arena.garbage.len() ==> r == Ordering::Greater,
            (total_sound::<D>() && total_sound::<P>()) ==> Some(r) == option_ordering_of(
                sized_walk_order(
                    self@.arena,
                    other@.arena,
                    forest_order_walk(self@, other@),
                    true,
                    total_orders::<D>(),
                    total_orders::<P>(),
                ),
            ),
    {
        proof {
            crate::arena::lemma_logical_size_counts_live(self@.arena);
            crate::arena::lemma_logical_size_counts_live(other@.arena);
        }
        let ss = self.logical_size().0;
        let os = other.logical_size().0;
        if ss < os {
            return Ordering::Less;
        }
        if ss > os {
            return Ordering::Greater;
        }
        let (sroots, oroots) = self.common_roots(other);
        proof {
            crate::order::lemma_walk_total_decision(self@.arena, other@.arena, forest_order_walk(self@, other@), true);
        }
        match self.arena.walk_total_order(&other.arena, &sroots, &oroots, true) {
            Some(Some(d)) => to_ordering(d),
            _ => Ordering::Equal,
        }
    }
}

/// Forests with as many roots are ordered along the walk that compares
/// them for equality.
proof fn lemma_order_walk_is_walk<D, P, C>(a: ForestView<D, P, C>, b: ForestView<D, P, C>)
    requires
        a.roots.len() == b.roots.len(),
    ensures
        forest_order_walk(a, b) == forest_walk(a, b),
{
    assert(nidxs(a.roots).take(a.roots.len() as int) =~= nidxs(a.roots));
    assert(nidxs(b.roots).take(b.roots.len() as int) =~= nidxs(b.roots));
}

/// A walk along which every pair of nodes agrees decides nothing, when the
/// data order puts data that are equal by `==` on a par.
proof fn lemma_agreeing_walk_undecided<D: PartialEq, P, C>(
    sv: ArenaView<D, P, C>,
    ov: ArenaView<D, P, C>,
    pairs: Seq<(NodeIdx, NodeIdx)>,
    by_data: bool,
    dord: spec_fn(D, D) -> Option<Order>,
    pord: spec_fn(P, P) -> Option<Order>,
)
    requires
        walk_agrees(sv, ov, pairs),
        forall|x: D, y: D| #[trigger] x.eq_spec(&y) ==> dord(x, y) == Some(Order::Equal),
    ensures
        walk_decision(sv, ov, pairs, by_data, dord, pord) is None,
    decreases pairs.len(),
{
    if pairs.len() > 0 {
        lemma_agreeing_walk_undecided(sv, ov, pairs.drop_last(), by_data, dord, pord);
        let s = pairs.last().0;
        let o = pairs.last().1;
        assert(sv.node(s).data.eq_spec(&ov.node(o).data));
    }
}

/// Logically equal forests are ordered on a par by `logical_cmp`, when
/// `cmp` puts data that are equal by `==` on a par, as `std` asks of every
/// `Ord` type.
pub proof fn lemma_equal_forests_cmp_equal<D: Ord, P: Ord, C>(a: ForestView<D, P, C>, b: ForestView<D, P, C>)
    requires
        logically_equal(a, b),
        forall|x: D, y: D| #[trigger] x.eq_spec(&y) ==> x.cmp_spec(&y) == Ordering::Equal,
    ensures
        sized_walk_order(a.arena, b.arena, forest_order_walk(a, b), true, total_orders::<D>(), total_orders::<P>())
            == Some(Order::Equal),
{
    lemma_order_walk_is_walk(a, b);
    assert forall|x: D, y: D| #[trigger] x.eq_spec(&y) implies total_orders::<D>()(x, y) == Some(Order::Equal) by {
        assert(x.cmp_spec(&y) == Ordering::Equal);
        assert(total_order_of(x, y) == Order::Equal);
    }
    lemma_agreeing_walk_undecided(a.arena, b.arena, forest_walk(a, b), true, total_orders::<D>(), total_orders::<P>());
}

/// Logically equal forests are ordered on a par by `logical_partial_cmp`,
/// when `partial_cmp` puts data that are equal by `==` on a par, as `std`
/// asks of every `PartialOrd` type.
pub proof fn lemma_equal_forests_partial_cmp_equal<D: PartialOrd, P: PartialOrd, C>(
    a: ForestView<D, P, C>,
    b: ForestView<D, P, C>,
)
    requires
        logically_equal(a, b),
        forall|x: D, y: D| #[trigger] x.eq_spec(&y) ==> x.partial_cmp_spec(&y) == Some(Ordering::Equal),
    ensures
        sized_walk_order(a.arena, b.arena, forest_order_walk(a, b), true, partial_orders::<D>(), partial_orders::<P>())
            == Some(Order::Equal),
{
    lemma_order_walk_is_walk(a, b);
    assert forall|x: D, y: D| #[trigger] x.eq_spec(&y) implies partial_orders::<D>()(x, y) == Some(Order::Equal) by {
        assert(x.partial_cmp_spec(&y) == Some(Ordering::Equal));
        assert(partial_order_of(x, y) == Some(Order::Equal));
    }
    lemma_agreeing_walk_undecided(
        a.arena,
        b.arena,
        forest_walk(a, b),
        true,
        partial_orders::<D>(),
        partial_orders::<P>(),
    );
}

/// `logical_partial_cmp` orders two forests as `logical_cmp` does, when
/// One step of `rm_subtree` keeps the slots, keeps every removed node
/// removed, and removes the node it visits unless that node keeps its
/// parents.
proof fn lemma_sweep_step_removes<D, P, C>(w: ForestView<D, P, C>, x: NodeIdx, force: bool, y: NodeIdx)
    requires
        w.arena.has(x),
        w.arena.has(y),
    ensures
        w.sweep_step(x, force).arena.nodes.len() == w.arena.nodes.len(),
        w.arena.is_removed(y) ==> w.sweep_step(x, force).arena.is_removed(y),
        (force || w.arena.node(x).parents.len() == 0) ==> w.sweep_step(x, force).arena.is_removed(x),
{
    if force || w.arena.node(x).parents.len() == 0 {
        let a1 = w.arena.detach(set![x]);
        let a2 = ArenaView { garbage: enqueue_one(a1.garbage, x), ..a1 };
        let a3 = a2.unparent(set![x]);
        assert(NodeIdx(x.id() as usize) == x);
        assert(NodeIdx(y.id() as usize) == y);
        lemma_enqueue_one(a1.garbage, x);
        assert(a3.garbage.contains(x));
        assert(a3.node(x).children.len() == 0);
        assert(a2.node(x).parents.len() == 0);
        assert(a3.node(x).parents == without(a2.node(x).parents, set![x]));
        if w.arena.is_removed(y) {
            assert(a1.node(y).parents.len() == 0);
            assert(a1.node(y).children == without(w.arena.node(y).children, set![x]));
            assert(a2.node(y).children.len() == 0);
            assert(a3.node(y).parents == without(a2.node(y).parents, set![x]));
            assert(a3.garbage.contains(y));
        }
    }
}

/// Every node that `rm_subtree` removes ends removed: each node of `xs`
/// that the sweep visits while forced, or while it has no parents left,
/// has neither parents nor children afterwards and is queued as garbage.
pub proof fn lemma_sweep_removes<D, P, C>(f: ForestView<D, P, C>, xs: Seq<NodeIdx>, force: bool)
    requires
        forall|k: int| 0 <= k < xs.len() ==> f.arena.has(#[trigger] xs[k]),
    ensures
        f.sweep(xs, force).arena.nodes.len() == f.arena.nodes.len(),
        forall|k: int|
            0 <= k < xs.len() && (force || f.sweep(xs.take(k), force).arena.node(xs[k]).parents.len() == 0)
                ==> f.sweep(xs, force).arena.is_removed(#[trigger] xs[k]),
    decreases xs.len(),
{
    if xs.len() > 0 {
        let t = xs.drop_last();
        let n = xs.len() - 1;
        assert forall|k: int| 0 <= k < t.len() implies f.arena.has(#[trigger] t[k]) by {
            assert(t[k] == xs[k]);
        }
        lemma_sweep_removes(f, t, force);
        let w = f.sweep(t, force);
        let x = xs.last();
        assert(xs[n] == x);
        assert(xs.take(n) =~= t);
        assert forall|k: int|
            0 <= k < xs.len() && (force || f.sweep(xs.take(k), force).arena.node(xs[k]).parents.len() == 0)
                implies f.sweep(xs, force).arena.is_removed(#[trigger] xs[k]) by {
            lemma_sweep_step_removes(w, x, force, xs[k]);
            if k < n {
                assert(t[k] == xs[k]);
                assert(t.take(k) =~= xs.take(k));
            }
        }
        lemma_sweep_step_removes(w, x, force, x);
    }
}

/// No node of `a` lists `z` among its parents.
pub open spec fn no_parent_entry<D, P, C>(a: ArenaView<D, P, C>, z: NodeIdx) -> bool {
    forall|y: NodeIdx, k: int|
        a.has(y) && 0 <= k < a.node(y).parents.len() ==> (#[trigger] a.node(y).parents[k]).0 != z
}

/// Every parent entry of `a` is one of `b`, node by node.
pub open spec fn parents_within<D, P, C>(a: ArenaView<D, P, C>, b: ArenaView<D, P, C>) -> bool {
    forall|y: NodeIdx, k: int|
        b.has(y) && 0 <= k < a.node(y).parents.len() ==> b.node(y).parents.contains(
            #[trigger] a.node(y).parents[k],
        )
}

/// One step of `rm_subtree` only takes parent entries away, and when it
/// removes the node it visits, no node lists that node as a parent
/// afterwards.
proof fn lemma_sweep_step_parents<D, P, C>(w: ForestView<D, P, C>, x: NodeIdx, force: bool)
    requires
        w.arena.has(x),
    ensures
        w.sweep_step(x, force).arena.nodes.len() == w.arena.nodes.len(),
        parents_within(w.sweep_step(x, force).arena, w.arena),
        forall|z: NodeIdx| no_parent_entry(w.arena, z) ==> no_parent_entry(w.sweep_step(x, force).arena, z),
        (force || w.arena.node(x).parents.len() == 0) ==> no_parent_entry(w.sweep_step(x, force).arena, x),
{
    let u = w.sweep_step(x, force).arena;
    if force || w.arena.node(x).parents.len() == 0 {
        let a1 = w.arena.detach(set![x]);
        let a2 = ArenaView { garbage: enqueue_one(a1.garbage, x), ..a1 };
        assert(u == a2.unparent(set![x]));
        assert forall|y: NodeIdx, k: int| w.arena.has(y) && 0 <= k < u.node(y).parents.len() implies {
            &&& w.arena.node(y).parents.contains(#[trigger] u.node(y).parents[k])
            &&& u.node(y).parents[k].0 != x
        } by {
            assert(NodeIdx(y.id() as usize) == y);
            assert(u.node(y).parents == without(a2.node(y).parents, set![x]));
            lemma_without_members(a2.node(y).parents, set![x], k);
            if y == x {
                assert(a2.node(y).parents.len() == 0);
            } else {
                assert(a2.node(y).parents == w.arena.node(y).parents);
            }
        }
        assert forall|z: NodeIdx| no_parent_entry(w.arena, z) implies no_parent_entry(u, z) by {
            assert forall|y: NodeIdx, k: int| u.has(y) && 0 <= k < u.node(y).parents.len() implies (
            #[trigger] u.node(y).parents[k]).0 != z by {
                let e = u.node(y).parents[k];
                assert(w.arena.node(y).parents.contains(e));
                let m = choose|m: int| 0 <= m < w.arena.node(y).parents.len() && w.arena.node(y).parents[m] == e;
                assert(w.arena.node(y).parents[m].0 != z);
            }
        }
    } else {
        assert forall|y: NodeIdx, k: int| w.arena.has(y) && 0 <= k < u.node(y).parents.len() implies w.arena.node(
            y,
        ).parents.contains(#[trigger] u.node(y).parents[k]) by {
            assert(u.node(y).parents[k] == w.arena.node(y).parents[k]);
        }
    }
}

/// Taking parent entries away twice takes them away once.
proof fn lemma_parents_within_trans<D, P, C>(a: ArenaView<D, P, C>, b: ArenaView<D, P, C>, c: ArenaView<D, P, C>)
    requires
        parents_within(a, b),
        parents_within(b, c),
        b.nodes.len() == c.nodes.len(),
    ensures
        parents_within(a, c),
{
    assert forall|y: NodeIdx, i: int| c.has(y) && 0 <= i < a.node(y).parents.len() implies c.node(y).parents.contains(
        #[trigger] a.node(y).parents[i],
    ) by {
        let e = a.node(y).parents[i];
        assert(b.node(y).parents.contains(e));
        let q = choose|q: int| 0 <= q < b.node(y).parents.len() && b.node(y).parents[q] == e;
        assert(c.node(y).parents.contains(b.node(y).parents[q]));
    }
}

/// The node that the `m`-th step of `rm_subtree` visits has no parents
/// left, when the tree shape holds and the nodes before it lost every
/// parent entry that pointed at them.
proof fn lemma_orphan_at_turn<D, P, C>(f: ForestView<D, P, C>, x: NodeIdx, w: ArenaView<D, P, C>, m: int)
    requires
        f.arena.wf(),
        f.arena.has(x),
        f.arena.node(x).parents.len() == 0,
        forall|i: int|
            0 <= i < f.arena.preorder(x).len() && #[trigger] f.arena.preorder(x)[i] != x ==> f.arena.node(
                f.arena.preorder(x)[i],
            ).parents.len() == 1,
        0 <= m < f.arena.preorder(x).len(),
        w.nodes.len() == f.arena.nodes.len(),
        parents_within(w, f.arena),
        forall|j: int| 0 <= j < m ==> no_parent_entry(w, #[trigger] f.arena.preorder(x)[j]),
    ensures
        w.node(f.arena.preorder(x)[m]).parents.len() == 0,
{
    let ord = f.arena.preorder(x);
    lemma_preorder_in_range(f.arena, x);
    let y = ord[m];
    assert(f.arena.has(y));
    if w.node(y).parents.len() > 0 {
        let e = w.node(y).parents[0];
        assert(f.arena.node(y).parents.contains(e));
        if y != x {
            lemma_preorder_follows(f.arena, x);
            let j = choose|j: int| 0 <= j < m && f.arena.children_of(ord[j]).contains(ord[m]);
            let z = ord[j];
            assert(f.arena.has(z));
            let c = choose|c: int| 0 <= c < f.arena.children_of(z).len() && f.arena.children_of(z)[c] == y;
            lemma_idxs_of_index(f.arena.node(z).children, c);
            lemma_count_positive(f.arena.node(z).children, c);
            assert(NodeIdx(z.id() as usize) == z);
            assert(NodeIdx(y.id() as usize) == y);
            assert(f.arena.balanced(z.id(), y.id()));
            lemma_first_index_bounds(f.arena.node(y).parents, z);
            assert(f.arena.node(y).parents.len() == 1);
            assert(f.arena.node(y).parents[0].0 == z);
            assert(no_parent_entry(w, z));
            assert(e.0 != z);
        }
    }
}

/// Without force, the steps of `rm_subtree` over the pre-order below `x`
/// only take parent entries away, and every node they visited is listed as
/// a parent nowhere afterwards, when `x` has no parents and every other
/// node below it exactly one.
proof fn lemma_tree_sweep_prefix<D, P, C>(f: ForestView<D, P, C>, x: NodeIdx, k: int)
    requires
        f.arena.wf(),
        f.arena.has(x),
        f.arena.node(x).parents.len() == 0,
        forall|i: int|
            0 <= i < f.arena.preorder(x).len() && #[trigger] f.arena.preorder(x)[i] != x ==> f.arena.node(
                f.arena.preorder(x)[i],
            ).parents.len() == 1,
        0 <= k <= f.arena.preorder(x).len(),
    ensures
        f.sweep(f.arena.preorder(x).take(k), false).arena.nodes.len() == f.arena.nodes.len(),
        parents_within(f.sweep(f.arena.preorder(x).take(k), false).arena, f.arena),
        forall|j: int|
            0 <= j < k ==> no_parent_entry(
                f.sweep(f.arena.preorder(x).take(k), false).arena,
                #[trigger] f.arena.preorder(x)[j],
            ),
    decreases k,
{
    let ord = f.arena.preorder(x);
    if k == 0 {
        assert(ord.take(0) =~= Seq::<NodeIdx>::empty());
        assert forall|y: NodeIdx, i: int| f.arena.has(y) && 0 <= i < f.arena.node(y).parents.len() implies f.arena.node(
            y,
        ).parents.contains(#[trigger] f.arena.node(y).parents[i]) by {}
    } else {
        let m = k - 1;
        lemma_tree_sweep_prefix(f, x, m);
        lemma_preorder_in_range(f.arena, x);
        let w = f.sweep(ord.take(m), false);
        let y = ord[m];
        assert(ord.take(k).drop_last() =~= ord.take(m));
        assert(ord.take(k).last() == y);
        let u = w.sweep_step(y, false);
        assert(f.sweep(ord.take(k), false) == u);
        lemma_orphan_at_turn(f, x, w.arena, m);
        lemma_sweep_step_parents(w, y, false);
        lemma_parents_within_trans(u.arena, w.arena, f.arena);
        assert forall|jj: int| 0 <= jj < k implies no_parent_entry(u.arena, #[trigger] ord[jj]) by {
            if jj < m {
                assert(no_parent_entry(w.arena, ord[jj]));
            }
        }
    }
}

/// Without force, `rm_subtree` removes the whole subtree below `x` when the
/// nodes below it form a tree: `x` has no parents and every other node
/// below it exactly one.  Each of them ends with neither parents nor
/// children, queued as garbage.
pub proof fn lemma_sweep_removes_tree<D, P, C>(f: ForestView<D, P, C>, x: NodeIdx)
    requires
        f.arena.wf(),
        f.arena.has(x),
        f.is_tree_below(x),
    ensures
        forall|k: int|
            0 <= k < f.arena.preorder(x).len() ==> f.sweep(f.arena.preorder(x), false).arena.is_removed(
                #[trigger] f.arena.preorder(x)[k],
            ),
{
    let ord = f.arena.preorder(x);
    lemma_preorder_in_range(f.arena, x);
    assert forall|j: int| 0 <= j < ord.len() implies f.sweep(ord.take(j), false).arena.node(#[trigger] ord[j]).parents.len()
        == 0 by {
        lemma_tree_sweep_prefix(f, x, j);
        lemma_orphan_at_turn(f, x, f.sweep(ord.take(j), false).arena, j);
    }
    lemma_sweep_removes(f, ord, false);
    assert(ord.take(ord.len() as int) =~= ord);
}

/// One step of `rm_subtree` that removes `y` queues it (once), and leaves
/// any other node that `y` is no parent of with its parents and data, and
/// with its children other than `y`.
proof fn lemma_sweep_step_other<D, P, C>(w: ForestView<D, P, C>, y: NodeIdx, force: bool, z: NodeIdx)
    requires
        w.arena.has(y),
        w.arena.has(z),
        z != y,
        force || w.arena.node(y).parents.len() == 0,
    ensures
        w.sweep_step(y, force).arena.garbage == enqueue_one(w.arena.garbage, y),
        count_of(w.arena.node(z).parents, y) == 0 ==> w.sweep_step(y, force).arena.node(z).parents == w.arena.node(
            z,
        ).parents,
        w.sweep_step(y, force).arena.node(z).data == w.arena.node(z).data,
        w.sweep_step(y, force).arena.node(z).children == without(w.arena.node(z).children, set![y]),
{
    assert(NodeIdx(z.id() as usize) == z);
    if count_of(w.arena.node(z).parents, y) == 0 {
        crate::seqs::lemma_without_none(w.arena.node(z).parents, y);
    }
}

/// The set of the entries of `t` with `y` pushed is that of `t` and `y`.
proof fn lemma_members_push(t: Seq<NodeIdx>, y: NodeIdx)
    ensures
        members(t.push(y)) == members(t).insert(y),
{
    let xs = t.push(y);
    assert forall|q: NodeIdx| xs.contains(q) <==> (t.contains(q) || q == y) by {
        if xs.contains(q) {
            let k = choose|k: int| 0 <= k < xs.len() && xs[k] == q;
            if k < t.len() {
                assert(t[k] == q);
            }
        }
        if t.contains(q) {
            let k = choose|k: int| 0 <= k < t.len() && t[k] == q;
            assert(xs[k] == q);
        }
        if q == y {
            assert(xs[t.len() as int] == q);
        }
    }
    assert(members(xs) =~= members(t).insert(y));
}

/// The steps of `rm_subtree` over `xs`, when each one removes the node it
/// visits, queue those nodes in turn (each once), and leave every other node
/// whose parents are none of them with its parents and data, and with its
/// children other than them.
proof fn lemma_sweep_steps_others<D, P, C>(f: ForestView<D, P, C>, xs: Seq<NodeIdx>, force: bool)
    requires
        forall|k: int| 0 <= k < xs.len() ==> f.arena.has(#[trigger] xs[k]),
        forall|k: int|
            0 <= k < xs.len() ==> force || f.sweep(xs.take(k), force).arena.node(#[trigger] xs[k]).parents.len()
                == 0,
    ensures
        f.sweep(xs, force).arena.garbage == enqueue(f.arena.garbage, xs),
        forall|z: NodeIdx|
            #![trigger f.sweep(xs, force).arena.node(z)]
            f.arena.has(z) && !xs.contains(z) ==> {
                &&& f.sweep(xs, force).arena.node(z).data == f.arena.node(z).data
                &&& f.sweep(xs, force).arena.node(z).children == without(f.arena.node(z).children, members(xs))
                &&& (forall|j: int|
                    0 <= j < f.arena.node(z).parents.len() ==> !xs.contains(#[trigger] f.arena.node(z).parents[j].0))
                    ==> f.sweep(xs, force).arena.node(z).parents == f.arena.node(z).parents
            },
    decreases xs.len(),
{
    if xs.len() == 0 {
        assert(members(xs) =~= Set::<NodeIdx>::empty());
        assert forall|z: NodeIdx| f.arena.has(z) implies without(f.arena.node(z).children, members(xs))
            == f.arena.node(z).children by {
            crate::seqs::lemma_without_empty(f.arena.node(z).children);
        }
    } else {
        let t = xs.drop_last();
        let n = xs.len() - 1;
        let y = xs.last();
        assert(xs[n] == y);
        assert(xs =~= t.push(y));
        assert forall|k: int| 0 <= k < t.len() implies f.arena.has(#[trigger] t[k]) by {
            assert(t[k] == xs[k]);
        }
        assert forall|k: int| 0 <= k < t.len() implies force || f.sweep(t.take(k), force).arena.node(
            #[trigger] t[k],
        ).parents.len() == 0 by {
            assert(t[k] == xs[k]);
            assert(t.take(k) =~= xs.take(k));
        }
        lemma_sweep_steps_others(f, t, force);
        assert(xs.take(n) =~= t);
        let w = f.sweep(t, force);
        lemma_sweep_removes(f, t, force);
        assert(w.arena.has(y));
        assert(f.sweep(xs, force) == w.sweep_step(y, force));
        lemma_members_push(t, y);
        assert forall|z: NodeIdx|
            #![trigger f.sweep(xs, force).arena.node(z)]
            f.arena.has(z) && !xs.contains(z) implies {
            &&& f.sweep(xs, force).arena.node(z).data == f.arena.node(z).data
            &&& f.sweep(xs, force).arena.node(z).children == without(f.arena.node(z).children, members(xs))
            &&& (forall|j: int|
                0 <= j < f.arena.node(z).parents.len() ==> !xs.contains(#[trigger] f.arena.node(z).parents[j].0))
                ==> f.sweep(xs, force).arena.node(z).parents == f.arena.node(z).parents
        } by {
            assert(xs[n] == y);
            assert(z != y);
            assert(!t.contains(z)) by {
                if t.contains(z) {
                    let k = choose|k: int| 0 <= k < t.len() && t[k] == z;
                    assert(xs[k] == z);
                }
            }
            if forall|j: int|
                0 <= j < f.arena.node(z).parents.len() ==> !xs.contains(#[trigger] f.arena.node(z).parents[j].0) {
                assert forall|j: int| 0 <= j < f.arena.node(z).parents.len() implies !t.contains(
                    #[trigger] f.arena.node(z).parents[j].0,
                ) by {
                    let q = f.arena.node(z).parents[j].0;
                    if t.contains(q) {
                        let k = choose|k: int| 0 <= k < t.len() && t[k] == q;
                        assert(xs[k] == q);
                    }
                }
                assert(w.arena.node(z).parents == f.arena.node(z).parents);
                let ps = f.arena.node(z).parents;
                lemma_first_index_bounds(ps, y);
                if count_of(ps, y) > 0 {
                    let m = first_index(ps, y);
                    assert(xs.contains(ps[m].0));
                }
            }
            lemma_sweep_step_other(w, y, force, z);
            crate::seqs::lemma_without_without(f.arena.node(z).children, members(t), y);
        }
        lemma_sweep_step_other_garbage(w, y, force);
    }
}

/// One step of `rm_subtree` that removes `y` queues it, once.
proof fn lemma_sweep_step_other_garbage<D, P, C>(w: ForestView<D, P, C>, y: NodeIdx, force: bool)
    requires
        force || w.arena.node(y).parents.len() == 0,
    ensures
        w.sweep_step(y, force).arena.garbage == enqueue_one(w.arena.garbage, y),
{
}

/// When forced, or when the nodes below `x` form a tree, every step of
/// `rm_subtree` over the pre-order below `x` removes the node it visits.
proof fn lemma_sweep_turns<D, P, C>(f: ForestView<D, P, C>, x: NodeIdx, force: bool)
    requires
        f.arena.wf(),
        f.arena.has(x),
        force || f.is_tree_below(x),
    ensures
        forall|j: int|
            0 <= j < f.arena.preorder(x).len() ==> force || f.sweep(f.arena.preorder(x).take(j), force).arena.node(
                #[trigger] f.arena.preorder(x)[j],
            ).parents.len() == 0,
{
    let ord = f.arena.preorder(x);
    if !force {
        assert forall|j: int| 0 <= j < ord.len() implies f.sweep(ord.take(j), false).arena.node(#[trigger] ord[j]).parents.len()
            == 0 by {
            lemma_tree_sweep_prefix(f, x, j);
            lemma_orphan_at_turn(f, x, f.sweep(ord.take(j), false).arena, j);
        }
    }
}

/// A node with exactly one parent entry has the parent it counts.
proof fn lemma_single_parent<D, P, C>(v: ArenaView<D, P, C>, c: NodeIdx, p: NodeIdx)
    requires
        v.node(c).parents.len() == 1,
        count_of(v.node(c).parents, p) > 0,
    ensures
        v.node(c).parents[0].0 == p,
{
    lemma_first_index_bounds(v.node(c).parents, p);
}

/// The roots during `rm_subtree` over the pre-order below `x`, when the
/// nodes below `x` form a tree that no root but `x` lies in: after `k`
/// steps they have no repeats, hold none of the nodes visited, and hold
/// only old roots and children of visited nodes.
proof fn lemma_tree_sweep_roots<D, P, C>(f: ForestView<D, P, C>, x: NodeIdx, force: bool, k: int)
    requires
        f.arena.wf(),
        f.arena.has(x),
        force || f.is_tree_below(x),
        forall|i: int|
            0 <= i < f.arena.preorder(x).len() && #[trigger] f.arena.preorder(x)[i] != x ==> f.arena.node(
                f.arena.preorder(x)[i],
            ).parents.len() == 1,
        f.arena.preorder(x).no_duplicates(),
        f.roots.no_duplicates(),
        forall|i: int|
            0 <= i < f.arena.preorder(x).len() && #[trigger] f.arena.preorder(x)[i] != x ==> !f.roots.contains(
                ForestIdx(f.arena.preorder(x)[i]),
            ),
        0 <= k <= f.arena.preorder(x).len(),
    ensures
        f.sweep(f.arena.preorder(x).take(k), force).roots.no_duplicates(),
        forall|j: int|
            0 <= j < k ==> !f.sweep(f.arena.preorder(x).take(k), force).roots.contains(
                ForestIdx(#[trigger] f.arena.preorder(x)[j]),
            ),
        forall|r: ForestIdx|
            #[trigger] f.sweep(f.arena.preorder(x).take(k), force).roots.contains(r) ==> f.roots.contains(r) || exists|
                j: int,
            |
                0 <= j < k && f.arena.children_of(f.arena.preorder(x)[j]).contains(r.0),
        forall|r: ForestIdx|
            #[trigger] f.roots.contains(r) && !f.arena.preorder(x).take(k).contains(r.0) ==> f.sweep(
                f.arena.preorder(x).take(k),
                force,
            ).roots.contains(r),
    decreases k,
{
    let ord = f.arena.preorder(x);
    if k == 0 {
        assert(ord.take(0) =~= Seq::<NodeIdx>::empty());
    } else {
        let m = k - 1;
        lemma_tree_sweep_roots(f, x, force, m);
        lemma_preorder_in_range(f.arena, x);
        lemma_sweep_turns(f, x, force);
        let t = ord.take(m);
        let y = ord[m];
        assert(f.arena.has(y));
        assert(ord.take(k).drop_last() =~= t);
        assert(ord.take(k).last() == y);
        assert(ord.take(k) =~= t.push(y));
        let w = f.sweep(t, force);
        assert(f.sweep(ord.take(k), force) == w.sweep_step(y, force));
        assert forall|j: int| 0 <= j < t.len() implies f.arena.has(#[trigger] t[j]) by {
            assert(t[j] == ord[j]);
        }
        assert forall|j: int| 0 <= j < t.len() implies force || f.sweep(t.take(j), force).arena.node(
            #[trigger] t[j],
        ).parents.len() == 0 by {
            assert(t[j] == ord[j]);
            assert(t.take(j) =~= ord.take(j));
        }
        lemma_sweep_steps_others(f, t, force);
        lemma_sweep_removes(f, t, force);
        assert(!t.contains(y)) by {
            if t.contains(y) {
                let j = choose|j: int| 0 <= j < t.len() && t[j] == y;
                assert(ord[j] == ord[m]);
            }
        }
        assert(w.arena.node(y).children == without(f.arena.node(y).children, members(t)));
        assert(force || w.arena.node(y).parents.len() == 0);
        let a1 = w.arena.detach(set![y]);
        let a2 = ArenaView { garbage: enqueue_one(a1.garbage, y), ..a1 };
        assert(NodeIdx(y.id() as usize) == y);
        assert(a2.node(y).children == without(w.arena.node(y).children, set![y]));
        crate::seqs::lemma_without_without(f.arena.node(y).children, members(t), y);
        lemma_members_push(t, y);
        let done = members(ord.take(k));
        let cy = without(f.arena.node(y).children, done);
        assert(a2.node(y).children == cy);
        let app = fidxs(idxs_of(cy));
        let rest = w.roots.remove_value(ForestIdx(y));
        let u = w.sweep_step(y, force);
        assert(u.roots == rest + app);
        crate::seqs::lemma_remove_value_unique(w.roots, ForestIdx(y));
        // every entry of `cy` is a child of `y` outside the visited nodes
        assert forall|i: int| 0 <= i < cy.len() implies {
            &&& f.arena.node(y).children.contains(#[trigger] cy[i])
            &&& !done.contains(cy[i].0)
            &&& f.arena.children_of(y).contains(cy[i].0)
            &&& ord.contains(cy[i].0)
            &&& cy[i].0 != x
            &&& f.arena.node(cy[i].0).parents.len() == 1
            &&& f.arena.node(cy[i].0).parents[0].0 == y
        } by {
            lemma_without_members(f.arena.node(y).children, done, i);
            let c = cy[i].0;
            let q = choose|q: int| 0 <= q < f.arena.node(y).children.len() && f.arena.node(y).children[q] == cy[i];
            lemma_idxs_of_index(f.arena.node(y).children, q);
            assert(f.arena.children_of(y)[q] == c);
            assert(ord.contains(y));
            crate::arena::lemma_preorder_closed(f.arena, x, y, c);
            assert(ord.take(k).contains(x)) by {
                assert(ord[0] == x);
                assert(ord.take(k)[0] == x);
            }
            assert(c != x);
            let ic = choose|ic: int| 0 <= ic < ord.len() && ord[ic] == c;
            assert(f.arena.node(ord[ic]).parents.len() == 1);
            crate::seqs::lemma_count_positive(f.arena.node(y).children, q);
            assert(f.arena.has(f.arena.nodes[y.id()].children[q].0));
            assert(NodeIdx(c.id() as usize) == c);
            assert(f.arena.balanced(y.id(), c.id()));
            lemma_single_parent(f.arena, c, y);
        }
        // no child is listed twice
        assert forall|c: NodeIdx| #[trigger] count_of(cy, c) <= 1 by {
            crate::seqs::lemma_count_without(f.arena.node(y).children, done, c);
            if count_of(cy, c) > 0 {
                lemma_first_index_bounds(cy, c);
                let i = first_index(cy, c);
                assert(cy[i].0 == c);
                assert(f.arena.node(c).parents.len() == 1);
                assert(NodeIdx(c.id() as usize) == c);
                assert(f.arena.balanced(y.id(), c.id()));
                crate::seqs::lemma_count_le_len(f.arena.node(c).parents, y);
            }
        }
        crate::seqs::lemma_idxs_unique(cy);
        let ic = idxs_of(cy);
        assert forall|a: int, b: int| 0 <= a < app.len() && 0 <= b < app.len() && a != b implies app[a] != app[b] by {
            assert(app[a] == ForestIdx(ic[a]) && app[b] == ForestIdx(ic[b]));
            assert(ic[a] != ic[b]);
        }
        // the appended children are not roots yet
        assert forall|a: int| 0 <= a < app.len() implies !rest.contains(#[trigger] app[a]) by {
            let c = ic[a];
            assert(app[a] == ForestIdx(c));
            lemma_idxs_of_index(cy, a);
            assert(c == cy[a].0);
            if w.roots.contains(ForestIdx(c)) {
                if f.roots.contains(ForestIdx(c)) {
                    let i2 = choose|i2: int| 0 <= i2 < ord.len() && ord[i2] == c;
                    assert(!f.roots.contains(ForestIdx(ord[i2])));
                } else {
                    let j = choose|j: int| 0 <= j < m && f.arena.children_of(ord[j]).contains(ForestIdx(c).0);
                    let z = ord[j];
                    assert(f.arena.has(z));
                    let q = choose|q: int| 0 <= q < f.arena.children_of(z).len() && f.arena.children_of(z)[q] == c;
                    lemma_idxs_of_index(f.arena.node(z).children, q);
                    crate::seqs::lemma_count_positive(f.arena.node(z).children, q);
                    assert(NodeIdx(z.id() as usize) == z);
                    assert(NodeIdx(c.id() as usize) == c);
                    assert(f.arena.balanced(z.id(), c.id()));
                    lemma_single_parent(f.arena, c, z);
                    assert(z == y);
                    assert(ord[j] == ord[m]);
                }
            }
        }
        let r2 = rest + app;
        assert forall|a: int, b: int| 0 <= a < r2.len() && 0 <= b < r2.len() && a != b implies r2[a] != r2[b] by {
            if a < rest.len() && b < rest.len() {
                assert(r2[a] == rest[a] && r2[b] == rest[b]);
            } else if a >= rest.len() && b >= rest.len() {
                assert(r2[a] == app[a - rest.len()] && r2[b] == app[b - rest.len()]);
            } else if a < rest.len() {
                assert(r2[a] == rest[a] && r2[b] == app[b - rest.len()]);
                assert(rest.contains(rest[a]));
            } else {
                assert(r2[b] == rest[b] && r2[a] == app[a - rest.len()]);
                assert(rest.contains(rest[b]));
            }
        }
        assert forall|j: int| 0 <= j < k implies !r2.contains(ForestIdx(#[trigger] ord[j])) by {
            assert(done.contains(ord[j])) by {
                assert(ord.take(k)[j] == ord[j]);
            }
            if r2.contains(ForestIdx(ord[j])) {
                let a = choose|a: int| 0 <= a < r2.len() && r2[a] == ForestIdx(ord[j]);
                if a < rest.len() {
                    assert(rest.contains(r2[a]));
                    if j < m {
                        assert(!w.roots.contains(ForestIdx(ord[j])));
                    }
                } else {
                    let b = a - rest.len();
                    assert(app[b] == ForestIdx(ic[b]));
                    lemma_idxs_of_index(cy, b);
                    assert(cy[b].0 == ord[j]);
                }
            }
        }
        assert forall|r: ForestIdx| #[trigger] r2.contains(r) implies f.roots.contains(r) || exists|j: int|
            0 <= j < k && f.arena.children_of(ord[j]).contains(r.0) by {
            let a = choose|a: int| 0 <= a < r2.len() && r2[a] == r;
            if a < rest.len() {
                assert(rest.contains(r2[a]));
                assert(w.roots.contains(r));
                if !f.roots.contains(r) {
                    let j = choose|j: int| 0 <= j < m && f.arena.children_of(ord[j]).contains(r.0);
                    assert(0 <= j < k && f.arena.children_of(ord[j]).contains(r.0));
                }
            } else {
                let b = a - rest.len();
                assert(app[b] == ForestIdx(ic[b]));
                lemma_idxs_of_index(cy, b);
                assert(f.arena.children_of(y).contains(cy[b].0));
                assert(0 <= m < k && f.arena.children_of(ord[m]).contains(r.0));
            }
        }
        assert forall|r: ForestIdx| #[trigger] f.roots.contains(r) && !ord.take(k).contains(r.0) implies r2.contains(r) by {
            assert(!t.contains(r.0)) by {
                if t.contains(r.0) {
                    let j = choose|j: int| 0 <= j < t.len() && t[j] == r.0;
                    assert(ord.take(k)[j] == r.0);
                }
            }
            assert(w.roots.contains(r));
            assert(r != ForestIdx(y)) by {
                assert(ord.take(k)[m] == y);
            }
            assert(rest.contains(r));
            let a = choose|a: int| 0 <= a < rest.len() && rest[a] == r;
            assert(r2[a] == r);
        }
    }
}

/// What `rm_subtree(x, force)` does to the roots, when forced or when the
/// nodes below `x` form a tree that no root but `x` lies in, and neither the
/// roots nor that pre-order repeat an entry: afterwards the roots are the
/// old ones that are not below `x`, each once.
pub proof fn lemma_rm_subtree_roots<D, P, C>(f: ForestView<D, P, C>, x: NodeIdx, force: bool)
    requires
        f.arena.wf(),
        f.arena.has(x),
        force || f.is_tree_below(x),
        forall|i: int|
            0 <= i < f.arena.preorder(x).len() && #[trigger] f.arena.preorder(x)[i] != x ==> f.arena.node(
                f.arena.preorder(x)[i],
            ).parents.len() == 1,
        f.arena.preorder(x).no_duplicates(),
        f.roots.no_duplicates(),
        forall|i: int|
            0 <= i < f.arena.preorder(x).len() && #[trigger] f.arena.preorder(x)[i] != x ==> !f.roots.contains(
                ForestIdx(f.arena.preorder(x)[i]),
            ),
    ensures
        f.sweep(f.arena.preorder(x), force).roots.no_duplicates(),
        forall|r: ForestIdx|
            #[trigger] f.sweep(f.arena.preorder(x), force).roots.contains(r) <==> (f.roots.contains(r)
                && !f.arena.preorder(x).contains(r.0)),
{
    let ord = f.arena.preorder(x);
    let n = ord.len() as int;
    lemma_tree_sweep_roots(f, x, force, n);
    assert(ord.take(n) =~= ord);
    let fin = f.sweep(ord, force).roots;
    assert forall|r: ForestIdx| #[trigger] fin.contains(r) <==> (f.roots.contains(r) && !ord.contains(r.0)) by {
        if fin.contains(r) {
            if ord.contains(r.0) {
                let j = choose|j: int| 0 <= j < ord.len() && ord[j] == r.0;
                assert(!fin.contains(ForestIdx(ord[j])));
            }
            if !f.roots.contains(r) {
                let j = choose|j: int| 0 <= j < n && f.arena.children_of(ord[j]).contains(r.0);
                assert(ord.contains(ord[j]));
                crate::arena::lemma_preorder_closed(f.arena, x, ord[j], r.0);
                let i = choose|i: int| 0 <= i < ord.len() && ord[i] == r.0;
                assert(!fin.contains(ForestIdx(ord[i])));
            }
        }
    }
}

/// What `rm_subtree(x, force)` does besides removing the nodes below `x`,
/// when forced or when those nodes form a tree: they are queued as garbage
/// in pre-order (each once; exactly appended when none was garbage and none
/// occurs twice), and every other node keeps its parents and data and loses
/// only the children among them, which is `x` alone when every node below
/// `x` but `x` has exactly one parent.
pub proof fn lemma_rm_subtree_others<D, P, C>(f: ForestView<D, P, C>, x: NodeIdx, force: bool)
    requires
        f.arena.wf(),
        f.arena.has(x),
        force || f.is_tree_below(x),
    ensures
        f.sweep(f.arena.preorder(x), force).arena.garbage == enqueue(f.arena.garbage, f.arena.preorder(x)),
        (f.arena.preorder(x).no_duplicates() && forall|i: int|
            0 <= i < f.arena.preorder(x).len() ==> !f.arena.garbage.contains(#[trigger] f.arena.preorder(x)[i]))
            ==> f.sweep(f.arena.preorder(x), force).arena.garbage == f.arena.garbage + f.arena.preorder(x),
        forall|z: NodeIdx|
            #![trigger f.sweep(f.arena.preorder(x), force).arena.node(z)]
            f.arena.has(z) && !f.arena.preorder(x).contains(z) ==> {
                &&& f.sweep(f.arena.preorder(x), force).arena.node(z).parents == f.arena.node(z).parents
                &&& f.sweep(f.arena.preorder(x), force).arena.node(z).data == f.arena.node(z).data
                &&& f.sweep(f.arena.preorder(x), force).arena.node(z).children == without(
                    f.arena.node(z).children,
                    members(f.arena.preorder(x)),
                )
            },
        (forall|i: int|
            0 <= i < f.arena.preorder(x).len() && #[trigger] f.arena.preorder(x)[i] != x ==> f.arena.node(
                f.arena.preorder(x)[i],
            ).parents.len() == 1) ==> forall|z: NodeIdx|
            #![trigger f.sweep(f.arena.preorder(x), force).arena.node(z)]
            f.arena.has(z) && !f.arena.preorder(x).contains(z) ==> f.sweep(f.arena.preorder(x), force).arena.node(
                z,
            ).children == without(f.arena.node(z).children, set![x]),
{
    let ord = f.arena.preorder(x);
    lemma_preorder_in_range(f.arena, x);
    if !force {
        assert forall|j: int| 0 <= j < ord.len() implies f.sweep(ord.take(j), false).arena.node(#[trigger] ord[j]).parents.len()
            == 0 by {
            lemma_tree_sweep_prefix(f, x, j);
            lemma_orphan_at_turn(f, x, f.sweep(ord.take(j), false).arena, j);
        }
    }
    lemma_sweep_steps_others(f, ord, force);
    let fin = f.sweep(ord, force).arena;
    assert forall|z: NodeIdx| #![trigger fin.node(z)] f.arena.has(z) && !ord.contains(z) implies {
        &&& fin.node(z).parents == f.arena.node(z).parents
        &&& fin.node(z).data == f.arena.node(z).data
        &&& fin.node(z).children == without(f.arena.node(z).children, members(ord))
    } by {
        crate::arena::lemma_preorder_parents_outside(f.arena, x, z);
    }
    if ord.no_duplicates() && forall|i: int| 0 <= i < ord.len() ==> !f.arena.garbage.contains(#[trigger] ord[i]) {
        crate::seqs::lemma_enqueue_fresh(f.arena.garbage, ord);
    }
    if forall|i: int| 0 <= i < ord.len() && #[trigger] ord[i] != x ==> f.arena.node(ord[i]).parents.len() == 1 {
        crate::arena::lemma_recycle_others(f.arena, x);
        assert forall|z: NodeIdx| #![trigger fin.node(z)] f.arena.has(z) && !ord.contains(z) implies fin.node(z).children
            == without(f.arena.node(z).children, set![x]) by {
            crate::arena::lemma_preorder_parents_outside(f.arena, x, z);
            assert(f.arena.recycle(x).node(z).children == without(f.arena.node(z).children, set![x]));
            assert(f.arena.recycle(x).node(z).children == without(f.arena.node(z).children, members(ord)));
        }
    }
}

/// Logical equality is reflexive: a forest equals itself when equality of
/// its data is reflexive, no node has two parents or more, and the walk can
/// consult its correspondence at every parent.
pub proof fn lemma_logically_equal_reflexive<D: PartialEq, P, C>(f: ForestView<D, P, C>)
    requires
        f.arena.wf(),
        forall|k: int| 0 <= k < f.roots.len() ==> f.arena.has(#[trigger] f.roots[k].0),
        forall|x: NodeIdx| f.arena.has(x) ==> #[trigger] f.arena.node(x).parents.len() <= 1,
        forall|d: D| #[trigger] d.eq_spec(&d),
        walk_total(f.arena, f.arena, forest_walk(f, f)),
    ensures
        logically_equal(f, f),
{
    let r = nidxs(f.roots);
    assert forall|k: int| 0 <= k < r.len() implies f.arena.has(#[trigger] r[k]) by {
        assert(r[k] == f.roots[k].0);
    }
    lemma_walk_agrees_self(f.arena, r);
}

/// Logical equality leaves physical layout aside: a forest whose acyclic
/// arena is extended by slots that stay out of its walks, with the same
/// roots and logical size, compares with any forest as the original does,
/// on either side.
pub proof fn lemma_logically_equal_extended<D: PartialEq, P, C>(
    a: ForestView<D, P, C>,
    b: ForestView<D, P, C>,
    c: ForestView<D, P, C>,
)
    requires
        a.arena.wf(),
        acyclic(a.arena),
        forall|k: int| 0 <= k < a.roots.len() ==> a.arena.has(#[trigger] a.roots[k].0),
        extends(b.arena, a.arena),
        b.roots == a.roots,
        b.arena.nodes.len() - b.arena.garbage.len() == a.arena.nodes.len() - a.arena.garbage.len(),
        c.arena.wf(),
        forall|k: int| 0 <= k < c.roots.len() ==> c.arena.has(#[trigger] c.roots[k].0),
    ensures
        logically_equal(b, c) == logically_equal(a, c),
        logically_equal(c, b) == logically_equal(c, a),
{
    if a.roots.len() == c.roots.len() {
        let ar = nidxs(a.roots);
        let cr = nidxs(c.roots);
        assert forall|k: int| 0 <= k < ar.len() implies a.arena.has(#[trigger] ar[k]) by {
            assert(ar[k] == a.roots[k].0);
        }
        assert forall|k: int| 0 <= k < cr.len() implies c.arena.has(#[trigger] cr[k]) by {
            assert(cr[k] == c.roots[k].0);
        }
        assert(a.arena.linked());
        assert(c.arena.linked());
        lemma_paired_walks_extend(a.arena, b.arena, c.arena, ar, cr);
        lemma_paired_walks_in_range(a.arena, c.arena, ar, cr);
        lemma_walk_agrees_extend(a.arena, b.arena, c.arena, forest_walk(a, c));
        lemma_paired_walks_extend_other(a.arena, b.arena, c.arena, cr, ar);
        lemma_paired_walks_in_range(c.arena, a.arena, cr, ar);
        lemma_walk_agrees_extend(a.arena, b.arena, c.arena, forest_walk(c, a));
    }
}

/// A forest equals itself after a node is added and removed again while
/// no garbage slot was free, although it then holds one slot more, queued
/// as garbage: when its arena is acyclic, no node has two parents or more,
/// equality of its data is reflexive, and the walk can consult its
/// correspondence at every parent.
pub proof fn lemma_add_remove_equal<D: PartialEq, P, C>(f: ForestView<D, P, C>, d: D)
    requires
        f.arena.wf(),
        acyclic(f.arena),
        f.arena.garbage.len() == 0,
        forall|k: int| 0 <= k < f.roots.len() ==> f.arena.has(#[trigger] f.roots[k].0),
        forall|x: NodeIdx| f.arena.has(x) ==> #[trigger] f.arena.node(x).parents.len() <= 1,
        forall|e: D| #[trigger] e.eq_spec(&e),
        walk_total(f.arena, f.arena, forest_walk(f, f)),
    ensures
        ({
            let (w, x) = f.arena.allocate(d);
            let g = ForestView { arena: w.recycle(x), roots: f.roots };
            &&& logically_equal(g, f)
            &&& logically_equal(f, g)
        }),
{
    let (w, x) = f.arena.allocate(d);
    let g = ForestView { arena: w.recycle(x), roots: f.roots };
    crate::arena::lemma_add_then_remove(f.arena, d);
    lemma_logically_equal_reflexive(f);
    lemma_logically_equal_extended(f, g, f);
}

/// A forest is ordered on a par with itself by `logical_cmp`, under the
/// conditions of `lemma_logically_equal_reflexive`, when `cmp` puts data
/// that are equal by `==` on a par.
pub proof fn lemma_forest_cmp_reflexive<D: Ord, P: Ord, C>(f: ForestView<D, P, C>)
    requires
        f.arena.wf(),
        forall|k: int| 0 <= k < f.roots.len() ==> f.arena.has(#[trigger] f.roots[k].0),
        forall|x: NodeIdx| f.arena.has(x) ==> #[trigger] f.arena.node(x).parents.len() <= 1,
        forall|d: D| #[trigger] d.eq_spec(&d),
        forall|x: D, y: D| #[trigger] x.eq_spec(&y) ==> x.cmp_spec(&y) == Ordering::Equal,
        walk_total(f.arena, f.arena, forest_walk(f, f)),
    ensures
        sized_walk_order(f.arena, f.arena, forest_order_walk(f, f), true, total_orders::<D>(), total_orders::<P>())
            == Some(Order::Equal),
{
    lemma_logically_equal_reflexive(f);
    lemma_equal_forests_cmp_equal(f, f);
}

/// The logical comparisons leave garbage aside: which slots are queued as
/// garbage does not matter, only how many.
pub proof fn lemma_logical_comparisons_ignore_garbage<D: PartialEq, P, C>(
    a: ForestView<D, P, C>,
    a2: ForestView<D, P, C>,
    b: ForestView<D, P, C>,
    by_data: bool,
    dord: spec_fn(D, D) -> Option<Order>,
    pord: spec_fn(P, P) -> Option<Order>,
)
    requires
        a2.arena.nodes == a.arena.nodes,
        a2.roots == a.roots,
        a2.arena.garbage.len() == a.arena.garbage.len(),
    ensures
        logically_equal(a2, b) == logically_equal(a, b),
        sized_walk_order(a2.arena, b.arena, forest_order_walk(a2, b), by_data, dord, pord) == sized_walk_order(
            a.arena,
            b.arena,
            forest_order_walk(a, b),
            by_data,
            dord,
            pord,
        ),
{
    lemma_paired_walks_same_nodes(a.arena, a2.arena, b.arena, nidxs(a.roots), nidxs(b.roots));
    let n = if a.roots.len() <= b.roots.len() {
        a.roots.len()
    } else {
        b.roots.len()
    };
    lemma_paired_walks_same_nodes(
        a.arena,
        a2.arena,
        b.arena,
        nidxs(a.roots).take(n as int),
        nidxs(b.roots).take(n as int),
    );
    lemma_walk_decision_same_nodes(a.arena, a2.arena, b.arena, forest_order_walk(a, b), by_data, dord, pord);
    lemma_walk_agrees_same_nodes(a.arena, a2.arena, b.arena, forest_walk(a, b));
}

/// The logical orders are antisymmetric: `b` against `a` is ordered the
/// opposite way to `a` against `b`, when the data and the parent edge data
/// are ordered antisymmetrically and no node occurs twice on either side
/// of the walk (as in forests whose trees share no node).
pub proof fn lemma_forest_order_antisymmetric<D, P, C>(
    a: ForestView<D, P, C>,
    b: ForestView<D, P, C>,
    dord: spec_fn(D, D) -> Option<Order>,
    pord: spec_fn(P, P) -> Option<Order>,
)
    requires
        one_to_one(forest_order_walk(a, b)),
        antisymmetric(dord),
        antisymmetric(pord),
    ensures
        sized_walk_order(b.arena, a.arena, forest_order_walk(b, a), true, dord, pord) == flip_opt(
            sized_walk_order(a.arena, b.arena, forest_order_walk(a, b), true, dord, pord),
        ),
{
    let n = if a.roots.len() <= b.roots.len() {
        a.roots.len()
    } else {
        b.roots.len()
    };
    let sr = nidxs(a.roots).take(n as int);
    let or = nidxs(b.roots).take(n as int);
    lemma_paired_walks_swap(a.arena, b.arena, sr, or, n as int);
    assert(sr.take(n as int) =~= sr);
    assert(or.take(n as int) =~= or);
    assert(forest_order_walk(b, a) == swap_pairs(forest_order_walk(a, b)));
    lemma_sized_walk_order_flip(a.arena, b.arena, forest_order_walk(a, b), true, dord, pord);
}

/// `partial_cmp` agrees with `cmp` on the data and on the parent edge data,
/// as `std` asks of every `Ord` type.
pub proof fn lemma_partial_cmp_is_cmp<D: Ord, P: Ord, C>(a: ForestView<D, P, C>, b: ForestView<D, P, C>)
    requires
        forall|x: D, y: D| #[trigger] x.partial_cmp_spec(&y) == Some(x.cmp_spec(&y)),
        forall|x: P, y: P| #[trigger] x.partial_cmp_spec(&y) == Some(x.cmp_spec(&y)),
    ensures
        sized_walk_order(a.arena, b.arena, forest_order_walk(a, b), true, partial_orders::<D>(), partial_orders::<P>())
            == sized_walk_order(
            a.arena,
            b.arena,
            forest_order_walk(a, b),
            true,
            total_orders::<D>(),
            total_orders::<P>(),
        ),
{
    assert forall|x: D, y: D| #[trigger] partial_orders::<D>()(x, y) == total_orders::<D>()(x, y) by {
        assert(x.partial_cmp_spec(&y) == Some(x.cmp_spec(&y)));
    }
    assert forall|x: P, y: P| #[trigger] partial_orders::<P>()(x, y) == total_orders::<P>()(x, y) by {
        assert(x.partial_cmp_spec(&y) == Some(x.cmp_spec(&y)));
    }
    assert(partial_orders::<D>() =~= total_orders::<D>());
    assert(partial_orders::<P>() =~= total_orders::<P>());
}

} // verus!
