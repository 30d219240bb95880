//! Arena allocation of nodes, and the edges between them.

use vstd::prelude::*;
use std::collections::VecDeque;
use crate::error::{Error, Result};
use vstd::std_specs::cmp::PartialEqSpec;
use crate::node::{Edge, Node, NodeCount, NodeIdx, NodeView};
use crate::seqs::{
    count_of, first_index, idxs_of, lemma_count_insert, lemma_idxs_of_index, lemma_count_push, lemma_first_index_bounds,
    lemma_occurrences_idxs, lemma_occurrences_push, lemma_remove_first_count,
    lemma_remove_first_n_all, lemma_remove_first_n_step, lemma_without_empty, lemma_without_members,
    lemma_without_without,
    members, occurrences, remove_first, remove_first_n, without, enqueue, enqueue_one, lemma_enqueue,
    lemma_enqueue_one, lemma_count_without, lemma_without_none,
};

verus! {

/// The kind of a depth-first traversal event: entering a node, returning
/// to it between two of its children, or leaving it.
#[derive(Clone, Copy, Debug, PartialEq, Eq, Structural, PartialOrd, Ord, Hash)]
pub enum TraversalType {
    Pre,
    Interspersed,
    Post,
}

/// The nodes of the events of `es` that have kind `t`, in order.
pub open spec fn visits(es: Seq<(TraversalType, NodeIdx)>, t: TraversalType) -> Seq<NodeIdx>
    decreases es.len(),
{
    if es.len() == 0 {
        Seq::empty()
    } else {
        (if es[0].0 == t {
            seq![es[0].1]
        } else {
            Seq::empty()
        }) + visits(es.drop_first(), t)
    }
}

/// The pairs of a lockstep walk over `a` and `b`, as long as both last.
pub open spec fn zip_idxs(a: Seq<NodeIdx>, b: Seq<NodeIdx>) -> Seq<(NodeIdx, NodeIdx)> {
    Seq::new(
        if a.len() <= b.len() {
            a.len()
        } else {
            b.len()
        },
        |i: int| (a[i], b[i]),
    )
}

/// The pairs of the lockstep pre-order walks below `sr[i]` in `sv` and
/// below `or[i]` in `ov`, for each `i` in turn.
pub open spec fn paired_walks<D, P, C>(
    sv: ArenaView<D, P, C>,
    ov: ArenaView<D, P, C>,
    sr: Seq<NodeIdx>,
    or: Seq<NodeIdx>,
) -> Seq<(NodeIdx, NodeIdx)>
    decreases sr.len(),
{
    if sr.len() == 0 {
        Seq::empty()
    } else {
        paired_walks(sv, ov, sr.drop_last(), or) + zip_idxs(
            sv.preorder(sr.last()),
            ov.preorder(or[sr.len() - 1]),
        )
    }
}

/// The correspondence that the walk `pairs` builds: each node of the first
/// arena is mapped to the node it was last paired with.
pub open spec fn pair_map(pairs: Seq<(NodeIdx, NodeIdx)>) -> Map<NodeIdx, NodeIdx>
    decreases pairs.len(),
{
    if pairs.len() == 0 {
        Map::empty()
    } else {
        pair_map(pairs.drop_last()).insert(pairs.last().0, pairs.last().1)
    }
}

/// `s` and `o` agree under the correspondence `m`: both have no parent, or
/// both have exactly one and `m` maps the one of `s` to the one of `o`;
/// they have as many children; their data are equal.
pub open spec fn nodes_agree<D: PartialEq, P, C>(
    sv: ArenaView<D, P, C>,
    ov: ArenaView<D, P, C>,
    m: Map<NodeIdx, NodeIdx>,
    s: NodeIdx,
    o: NodeIdx,
) -> bool {
    let sp = sv.node(s).parents;
    let op = ov.node(o).parents;
    &&& ((sp.len() == 0 && op.len() == 0) || (sp.len() == 1 && op.len() == 1 && m.contains_key(
        sp[0].0,
    ) && m[sp[0].0] == op[0].0))
    &&& sv.node(s).children.len() == ov.node(o).children.len()
    &&& sv.node(s).data.eq_spec(&ov.node(o).data)
}

/// Every pair of the walk `pairs` agrees, under the correspondence built up
/// to and including it.
pub open spec fn walk_agrees<D: PartialEq, P, C>(
    sv: ArenaView<D, P, C>,
    ov: ArenaView<D, P, C>,
    pairs: Seq<(NodeIdx, NodeIdx)>,
) -> bool
    decreases pairs.len(),
{
    if pairs.len() == 0 {
        true
    } else {
        walk_agrees(sv, ov, pairs.drop_last()) && nodes_agree(
            sv,
            ov,
            pair_map(pairs),
            pairs.last().0,
            pairs.last().1,
        )
    }
}

/// Whenever a pair of the walk has one parent on each side, the parent on
/// the first side was paired before (or is the node itself), so that the
/// correspondence can be consulted for it.
pub open spec fn walk_total<D, P, C>(
    sv: ArenaView<D, P, C>,
    ov: ArenaView<D, P, C>,
    pairs: Seq<(NodeIdx, NodeIdx)>,
) -> bool {
    forall|k: int|
        #![trigger pairs[k]]
        0 <= k < pairs.len() ==> (sv.node(pairs[k].0).parents.len() == 1 && ov.node(
            pairs[k].1,
        ).parents.len() == 1 ==> pair_map(pairs.take(k + 1)).contains_key(
            sv.node(pairs[k].0).parents[0].0,
        ))
}

/// `s` and `o` have the same shape under the correspondence `m`: both
/// have no parent, or both have exactly one and `m` maps the one of `s` to
/// the one of `o`; and they have as many children.
pub open spec fn shapes_agree<D, P, C>(
    sv: ArenaView<D, P, C>,
    ov: ArenaView<D, P, C>,
    m: Map<NodeIdx, NodeIdx>,
    s: NodeIdx,
    o: NodeIdx,
) -> bool {
    let sp = sv.node(s).parents;
    let op = ov.node(o).parents;
    &&& ((sp.len() == 0 && op.len() == 0) || (sp.len() == 1 && op.len() == 1 && m.contains_key(sp[0].0)
        && m[sp[0].0] == op[0].0))
    &&& sv.node(s).children.len() == ov.node(o).children.len()
}

/// Every pair of the walk `pairs` has the same shape on both sides, under
/// the correspondence built up to and including it.
pub open spec fn walk_shapes_agree<D, P, C>(
    sv: ArenaView<D, P, C>,
    ov: ArenaView<D, P, C>,
    pairs: Seq<(NodeIdx, NodeIdx)>,
) -> bool
    decreases pairs.len(),
{
    if pairs.len() == 0 {
        true
    } else {
        walk_shapes_agree(sv, ov, pairs.drop_last()) && shapes_agree(
            sv,
            ov,
            pair_map(pairs),
            pairs.last().0,
            pairs.last().1,
        )
    }
}

/// The correspondence can be consulted wherever the walk consults it: at
/// each pair with one parent on each side that follows only pairs of the
/// same shape, the parent on the first side was paired before (or is the
/// node itself).  A comparison stops at the first pair whose shapes differ,
/// whatever the data, so no later pair is consulted.
pub open spec fn walk_total_until<D, P, C>(
    sv: ArenaView<D, P, C>,
    ov: ArenaView<D, P, C>,
    pairs: Seq<(NodeIdx, NodeIdx)>,
) -> bool {
    forall|k: int|
        #![trigger pairs[k]]
        0 <= k < pairs.len() ==> (walk_shapes_agree(sv, ov, pairs.take(k)) && sv.node(pairs[k].0).parents.len() == 1
            && ov.node(pairs[k].1).parents.len() == 1 ==> pair_map(pairs.take(k + 1)).contains_key(
            sv.node(pairs[k].0).parents[0].0,
        ))
}

/// The abstract value of an `Arena`: its nodes, slot by slot, and the
/// queue of garbage slots that `add_node` recycles first.
#[verifier::ext_equal]
pub ghost struct ArenaView<D, P, C> {
    pub nodes: Seq<NodeView<D, P, C>>,
    pub garbage: Seq<NodeIdx>,
}

impl<D, P, C> ArenaView<D, P, C> {
    /// `x` designates an allocated slot.
    pub open spec fn has(self, x: NodeIdx) -> bool {
        x.id() < self.nodes.len()
    }

    /// The node in slot `x`.
    pub open spec fn node(self, x: NodeIdx) -> NodeView<D, P, C> {
        self.nodes[x.id()]
    }

    /// The indices of the children of `x`, leftmost first.
    pub open spec fn children_of(self, x: NodeIdx) -> Seq<NodeIdx> {
        idxs_of(self.node(x).children)
    }

    /// The indices of the parents of `x`, leftmost first.
    pub open spec fn parents_of(self, x: NodeIdx) -> Seq<NodeIdx> {
        idxs_of(self.node(x).parents)
    }

    /// Node `p` lists `c` as a child as often as `c` lists `p` as a parent.
    pub open spec fn balanced(self, p: int, c: int) -> bool {
        count_of(self.nodes[p].children, NodeIdx(c as usize)) == count_of(
            self.nodes[c].parents,
            NodeIdx(p as usize),
        )
    }

    /// `p` has `c` as a child (and so, in a well-formed arena, `c` has `p`
    /// as a parent).
    pub open spec fn has_edge(self, p: NodeIdx, c: NodeIdx) -> bool {
        count_of(self.node(p).children, c) > 0
    }

    /// Every edge of `self` points at an allocated slot, on both of its
    /// ends, and the slots can be counted in a `usize`.
    pub open spec fn linked(self) -> bool {
        &&& self.nodes.len() <= usize::MAX
        &&& forall|i: int, k: int|
            0 <= i < self.nodes.len() && 0 <= k < self.nodes[i].children.len() ==> self.has(
                #[trigger] self.nodes[i].children[k].0,
            )
        &&& forall|i: int, k: int|
            0 <= i < self.nodes.len() && 0 <= k < self.nodes[i].parents.len() ==> self.has(
                #[trigger] self.nodes[i].parents[k].0,
            )
    }

    /// The well-formedness of an arena: every node knows its own slot, every
    /// edge and every garbage entry points at an allocated slot, no slot is
    /// queued twice as garbage, and every edge is registered on both of its
    /// ends.
    pub open spec fn wf(self) -> bool {
        &&& self.nodes.len() <= usize::MAX
        &&& forall|i: int|
            0 <= i < self.nodes.len() ==> (#[trigger] self.nodes[i]).idx == NodeIdx(i as usize)
        &&& forall|i: int, k: int|
            0 <= i < self.nodes.len() && 0 <= k < self.nodes[i].children.len() ==> self.has(
                #[trigger] self.nodes[i].children[k].0,
            )
        &&& forall|i: int, k: int|
            0 <= i < self.nodes.len() && 0 <= k < self.nodes[i].parents.len() ==> self.has(
                #[trigger] self.nodes[i].parents[k].0,
            )
        &&& forall|k: int| 0 <= k < self.garbage.len() ==> self.has(#[trigger] self.garbage[k])
        &&& self.garbage.no_duplicates()
        &&& forall|p: int, c: int|
            0 <= p < self.nodes.len() && 0 <= c < self.nodes.len() ==> #[trigger] self.balanced(p, c)
    }

    /// `y` is a removed node: it has neither parents nor children, and it
    /// is queued as garbage.
    pub open spec fn is_removed(self, y: NodeIdx) -> bool {
        &&& self.node(y).parents.len() == 0
        &&& self.node(y).children.len() == 0
        &&& self.garbage.contains(y)
    }

    /// Every slot queued as garbage has neither parents nor children, as
    /// recycling leaves it.
    pub open spec fn garbage_clean(self) -> bool {
        forall|k: int|
            0 <= k < self.garbage.len() ==> self.node(#[trigger] self.garbage[k]).parents.len() == 0
                && self.node(self.garbage[k]).children.len() == 0
    }

    /// `self` with the children of `p` replaced by `cs`.
    pub open spec fn with_children(self, p: NodeIdx, cs: Seq<(NodeIdx, C)>) -> Self {
        ArenaView {
            nodes: self.nodes.update(p.id(), NodeView { children: cs, ..self.nodes[p.id()] }),
            garbage: self.garbage,
        }
    }

    /// `self` with the parents of `c` replaced by `ps`.
    pub open spec fn with_parents(self, c: NodeIdx, ps: Seq<(NodeIdx, P)>) -> Self {
        ArenaView {
            nodes: self.nodes.update(c.id(), NodeView { parents: ps, ..self.nodes[c.id()] }),
            garbage: self.garbage,
        }
    }

    /// `self` with the data of node `x` replaced by `d`.
    pub open spec fn with_data(self, x: NodeIdx, d: D) -> Self {
        ArenaView {
            nodes: self.nodes.update(x.id(), NodeView { data: d, ..self.nodes[x.id()] }),
            garbage: self.garbage,
        }
    }

    /// `self` with an edge from `p` to `c` appended to both of its ends.
    pub open spec fn link(self, p: NodeIdx, c: NodeIdx, pdata: P, cdata: C) -> Self {
        let v1 = self.with_children(p, self.node(p).children.push((c, cdata)));
        v1.with_parents(c, v1.node(c).parents.push((p, pdata)))
    }

    /// `self` without the leftmost edge from `p` to `c`, on both of its ends.
    pub open spec fn unlink(self, p: NodeIdx, c: NodeIdx) -> Self {
        let v1 = self.with_children(p, remove_first(self.node(p).children, c));
        v1.with_parents(c, remove_first(v1.node(c).parents, p))
    }

    /// `self` with an edge from `p` to `c` inserted on both of its ends: on
    /// `p` at position `cpos` of its children (or last), on `c` at position
    /// `ppos` of its parents (or last).
    pub open spec fn link_at(
        self,
        p: NodeIdx,
        c: NodeIdx,
        pdata: P,
        cdata: C,
        ppos: Option<usize>,
        cpos: Option<usize>,
    ) -> Self {
        let cs = match cpos {
            Some(i) => self.node(p).children.insert(i as int, (c, cdata)),
            None => self.node(p).children.push((c, cdata)),
        };
        let v1 = self.with_children(p, cs);
        let ps = match ppos {
            Some(i) => v1.node(c).parents.insert(i as int, (p, pdata)),
            None => v1.node(c).parents.push((p, pdata)),
        };
        v1.with_parents(c, ps)
    }

    /// The state after unlinking each pair of `pairs` in turn, and the first
    /// pair that had no edge to unlink (at which point unlinking stopped).
    pub open spec fn unlink_pairs(self, pairs: Seq<(NodeIdx, NodeIdx)>) -> (Self, Option<
        (NodeIdx, NodeIdx),
    >)
        decreases pairs.len(),
    {
        if pairs.len() == 0 {
            (self, None)
        } else {
            let (w, failed) = self.unlink_pairs(pairs.drop_last());
            if failed is Some {
                (w, failed)
            } else {
                let e = pairs.last();
                if w.has_edge(e.0, e.1) {
                    (w.unlink(e.0, e.1), None)
                } else {
                    (w, Some(e))
                }
            }
        }
    }

    /// The neighbours of `x`: its parents when `up`, its children otherwise.
    pub open spec fn neighbors_of(self, x: NodeIdx, up: bool) -> Seq<NodeIdx> {
        if up {
            self.parents_of(x)
        } else {
            self.children_of(x)
        }
    }

    /// The neighbours of the nodes of `xs`, node by node.
    pub open spec fn neighbors_of_all(self, xs: Seq<NodeIdx>, up: bool) -> Seq<NodeIdx>
        decreases xs.len(),
    {
        if xs.len() == 0 {
            Seq::empty()
        } else {
            self.neighbors_of_all(xs.drop_last(), up) + self.neighbors_of(xs.last(), up)
        }
    }

    /// Breadth-first exploration, layer by layer, starting from `layer`:
    /// each next layer holds the neighbours of the nodes of the previous
    /// one, and exploration stops at the first empty layer or after `fuel`
    /// more layers.
    pub open spec fn layers(self, layer: Seq<NodeIdx>, up: bool, fuel: nat) -> Seq<NodeIdx>
        decreases fuel,
    {
        if fuel == 0 {
            layer
        } else {
            let next = self.neighbors_of_all(layer, up);
            if next.len() == 0 {
                layer
            } else {
                layer + self.layers(next, up, (fuel - 1) as nat)
            }
        }
    }

    /// The breadth-first order of the nodes below (and including) `x`.
    /// Every node below `x` in an acyclic arena is at most `nodes.len() - 1`
    /// edges deep, so the fuel bound only cuts cycles short.
    pub open spec fn bfs_from(self, x: NodeIdx) -> Seq<NodeIdx> {
        self.layers(seq![x], false, self.nodes.len())
    }

    /// `x` and its ancestors, layer by layer upwards.
    pub open spec fn ancestry_of(self, x: NodeIdx) -> Seq<NodeIdx> {
        self.layers(seq![x], true, self.nodes.len())
    }

    /// The row that displays `x` in an outline: its number of ancestors,
    /// by which the row is indented, and `x` itself.
    pub open spec fn outline_row(self, x: NodeIdx) -> (nat, NodeIdx) {
        (others(self.ancestry_of(x), x), x)
    }

    /// The outline of `x` and the nodes below it: a row for each, in
    /// pre-order.
    pub open spec fn outline_from(self, x: NodeIdx) -> Seq<(nat, NodeIdx)> {
        self.preorder(x).map_values(|y: NodeIdx| self.outline_row(y))
    }

    /// Pre-order depth-first traversal of the nodes below (and including)
    /// `x`, children left to right, visiting nodes at most `fuel - 1` edges
    /// below `x`.
    pub open spec fn dfs_from(self, x: NodeIdx, fuel: nat) -> Seq<NodeIdx>
        decreases fuel, 0nat,
    {
        if fuel == 0 {
            Seq::empty()
        } else {
            seq![x] + self.dfs_list(self.children_of(x), (fuel - 1) as nat)
        }
    }

    /// The pre-order traversals below each node of `xs`, one after the other.
    pub open spec fn dfs_list(self, xs: Seq<NodeIdx>, fuel: nat) -> Seq<NodeIdx>
        decreases fuel, xs.len(),
    {
        if xs.len() == 0 {
            Seq::empty()
        } else {
            self.dfs_from(xs[0], fuel) + self.dfs_list(xs.drop_first(), fuel)
        }
    }

    /// The pre-order of the nodes below (and including) `x`.  Every node
    /// below `x` in an acyclic arena is at most `nodes.len() - 1` edges deep,
    /// so the fuel bound only cuts cycles short.
    pub open spec fn preorder(self, x: NodeIdx) -> Seq<NodeIdx> {
        self.dfs_from(x, self.nodes.len())
    }

    /// The traversals still owed for a stack of `(node, fuel)` frames, the
    /// top of the stack first.
    pub open spec fn pending(self, st: Seq<(NodeIdx, usize)>) -> Seq<NodeIdx>
        decreases st.len(),
    {
        if st.len() == 0 {
            Seq::empty()
        } else {
            self.dfs_from(st.last().0, st.last().1 as nat) + self.pending(st.drop_last())
        }
    }

    /// `self` with every edge that reaches into `gone` removed, on both of
    /// its ends: the nodes of `gone` lose their parents, and every node loses
    /// its children that are in `gone`.
    pub open spec fn detach(self, gone: Set<NodeIdx>) -> Self {
        ArenaView {
            nodes: Seq::new(
                self.nodes.len(),
                |i: int|
                    NodeView {
                        parents: if gone.contains(NodeIdx(i as usize)) {
                            Seq::empty()
                        } else {
                            self.nodes[i].parents
                        },
                        children: without(self.nodes[i].children, gone),
                        ..self.nodes[i]
                    },
            ),
            garbage: self.garbage,
        }
    }

    /// `self` with every edge that leaves `gone` removed, on both of its
    /// ends: the nodes of `gone` lose their children, and every node loses
    /// its parents that are in `gone`.
    pub open spec fn unparent(self, gone: Set<NodeIdx>) -> Self {
        ArenaView {
            nodes: Seq::new(
                self.nodes.len(),
                |i: int|
                    NodeView {
                        children: if gone.contains(NodeIdx(i as usize)) {
                            Seq::empty()
                        } else {
                            self.nodes[i].children
                        },
                        parents: without(self.nodes[i].parents, gone),
                        ..self.nodes[i]
                    },
            ),
            garbage: self.garbage,
        }
    }

    /// The state after visiting the nodes of `xs` in turn, and recycling
    /// each one that has no parents left when it is visited: it loses its
    /// child edges and is queued as garbage, unless it is queued already.
    pub open spec fn orphan_sweep(self, xs: Seq<NodeIdx>) -> Self
        decreases xs.len(),
    {
        if xs.len() == 0 {
            self
        } else {
            let w = self.orphan_sweep(xs.drop_last());
            let x = xs.last();
            if w.node(x).parents.len() > 0 {
                w
            } else {
                ArenaView { garbage: enqueue_one(w.garbage, x), ..w.unparent(set![x]) }
            }
        }
    }

    /// The state after removing each node of `xs` in turn with everything
    /// below it, as `rm_node` does.
    pub open spec fn rm_sweep(self, xs: Seq<NodeIdx>) -> Self
        decreases xs.len(),
    {
        if xs.len() == 0 {
            self
        } else {
            self.rm_sweep(xs.drop_last()).recycle(xs.last())
        }
    }

    /// The slots that are not queued as garbage, in slot order.
    pub open spec fn live_slots(self) -> Seq<NodeIdx> {
        Seq::new(self.nodes.len(), |i: int| NodeIdx(i as usize)).filter(
            |x: NodeIdx| !self.garbage.contains(x),
        )
    }

    /// The depth-first events of the traversal below (and including) `x`:
    /// `x` is entered, its children are traversed left to right with `x`
    /// returned to between each two of them, and `x` is left.  Nodes more
    /// than `fuel - 1` edges below `x` are not visited.
    pub open spec fn events_from(self, x: NodeIdx, fuel: nat) -> Seq<(TraversalType, NodeIdx)>
        decreases fuel, 0int,
    {
        if fuel == 0 {
            Seq::empty()
        } else {
            seq![(TraversalType::Pre, x)] + self.events_after(x, 0, (fuel - 1) as nat) + seq![
                (TraversalType::Post, x),
            ]
        }
    }

    /// The depth-first events of the children of `x` from the `k`-th on,
    /// with a return to `x` before each of them but the first child.
    pub open spec fn events_after(self, x: NodeIdx, k: nat, fuel: nat) -> Seq<(TraversalType, NodeIdx)>
        decreases fuel, self.children_of(x).len() - k,
    {
        let cs = self.children_of(x);
        if k >= cs.len() {
            Seq::empty()
        } else {
            (if k > 0 {
                seq![(TraversalType::Interspersed, x)]
            } else {
                Seq::empty()
            }) + self.events_from(cs[k as int], fuel) + self.events_after(x, k + 1, fuel)
        }
    }

    /// The post-order traversal below (and including) `x`: the children
    /// left to right, then `x`.
    pub open spec fn post_from(self, x: NodeIdx, fuel: nat) -> Seq<NodeIdx>
        decreases fuel, 0int,
    {
        if fuel == 0 {
            Seq::empty()
        } else {
            self.post_list(self.children_of(x), (fuel - 1) as nat) + seq![x]
        }
    }

    /// The post-order traversals below each node of `xs`, one after the other.
    pub open spec fn post_list(self, xs: Seq<NodeIdx>, fuel: nat) -> Seq<NodeIdx>
        decreases fuel, xs.len(),
    {
        if xs.len() == 0 {
            Seq::empty()
        } else {
            self.post_from(xs[0], fuel) + self.post_list(xs.drop_first(), fuel)
        }
    }

    /// The events still owed for a stack of `(node, next child, fuel)`
    /// frames, the top of the stack first.
    pub open spec fn events_pending(self, st: Seq<(NodeIdx, usize, usize)>) -> Seq<
        (TraversalType, NodeIdx),
    >
        decreases st.len(),
    {
        if st.len() == 0 {
            Seq::empty()
        } else {
            let (x, k, f) = st.last();
            self.events_after(x, k as nat, (f - 1) as nat) + seq![(TraversalType::Post, x)]
                + self.events_pending(st.drop_last())
        }
    }

    /// How many children the frames of `st` have still to descend into.
    pub open spec fn frames_left(self, st: Seq<(NodeIdx, usize, usize)>) -> int
        decreases st.len(),
    {
        if st.len() == 0 {
            0
        } else {
            (self.children_of(st.last().0).len() - st.last().1) + self.frames_left(st.drop_last())
        }
    }

    /// The state after `add_node(data)`, and the slot that it returns: the
    /// front of the garbage queue is recycled when there is one, otherwise a
    /// new slot is appended.
    pub open spec fn allocate(self, data: D) -> (Self, NodeIdx) {
        if self.garbage.len() > 0 {
            let x = self.garbage[0];
            (ArenaView { garbage: self.garbage.drop_first(), ..self.with_data(x, data) }, x)
        } else {
            let x = NodeIdx(self.nodes.len() as usize);
            (
                ArenaView {
                    nodes: self.nodes.push(
                        NodeView { idx: x, parents: Seq::empty(), children: Seq::empty(), data },
                    ),
                    garbage: self.garbage,
                },
                x,
            )
        }
    }

    /// The state after `rm_node(x)`: every edge that reaches into the nodes
    /// below (and including) `x` is removed, and those nodes are queued as
    /// garbage in reverse pre-order, each one only if it is not queued
    /// already.
    pub open spec fn recycle(self, x: NodeIdx) -> Self {
        let order = self.preorder(x);
        ArenaView { garbage: enqueue(self.garbage, order.reverse()), ..self.detach(members(order)) }
    }

    /// `self` without the edge from the first parent of `x` to `x`, when `x`
    /// has a parent.
    pub open spec fn detach_first_parent(self, x: NodeIdx) -> Self {
        if self.node(x).parents.len() > 0 {
            self.unlink(self.node(x).parents[0].0, x)
        } else {
            self
        }
    }

    /// `self` where `s` takes the place of `t` under the first parent of
    /// `t` (when `t` has a parent): the edge to `t` is removed, and an edge
    /// to `s` is inserted at the position `t` had among the children.
    pub open spec fn take_place_of(self, t: NodeIdx, s: NodeIdx, pdata: P, cdata: C) -> Self {
        if self.node(t).parents.len() > 0 {
            let p = self.node(t).parents[0].0;
            let pos = first_index(self.node(p).children, t);
            self.unlink(p, t).link_at(p, s, pdata, cdata, None, Some(pos as usize))
        } else {
            self
        }
    }
}

/// Every pair `(p, c)` with `p` from `ps` and `c` from `cs`, ordered by `p`
/// first and `c` second.
pub open spec fn grid(ps: Seq<NodeIdx>, cs: Seq<NodeIdx>) -> Seq<(NodeIdx, NodeIdx)>
    decreases ps.len(),
{
    if ps.len() == 0 {
        Seq::empty()
    } else {
        grid(ps.drop_last(), cs) + cs.map_values(|c: NodeIdx| (ps.last(), c))
    }
}

/// How many entries of `s` are not `x`.
pub open spec fn others(s: Seq<NodeIdx>, x: NodeIdx) -> nat
    decreases s.len(),
{
    if s.len() == 0 {
        0
    } else {
        others(s.drop_last(), x) + if s.last() == x {
            0nat
        } else {
            1nat
        }
    }
}

/// Outline rows with their counts taken as natural numbers.
pub open spec fn rows_view<I>(rows: Seq<(usize, I)>) -> Seq<(nat, I)> {
    rows.map_values(|e: (usize, I)| (e.0 as nat, e.1))
}

/// An arena of nodes: slots are allocated once and recycled through a
/// garbage queue, and nodes refer to each other by slot.
#[derive(Clone, Debug, Hash)]
pub struct Arena<D, P, C> {
    nodes: Vec<Node<D, P, C>>,
    garbage: VecDeque<NodeIdx>,
}

impl<D, P, C> std::ops::Index<NodeIdx> for Arena<D, P, C> {
    type Output = Node<D, P, C>;

    fn index(&self, idx: NodeIdx) -> (r: &Node<D, P, C>)
        ensures
            r@ == self@.node(idx),
    {
        &self.nodes[idx.0]
    }
}

impl<D, P, C> vstd::std_specs::core::IndexSpecImpl<NodeIdx> for Arena<D, P, C> {
    open spec fn index_req(&self, idx: &NodeIdx) -> bool {
        self@.has(*idx)
    }
}

impl<D, P, C> Default for Arena<D, P, C> {
    fn default() -> (r: Self)
        ensures
            r@.nodes == Seq::<NodeView<D, P, C>>::empty(),
            r@.garbage == Seq::<NodeIdx>::empty(),
            r@.wf(),
    {
        Self::with_capacity(64)
    }
}

impl<D, P, C> Arena<D, P, C> {
    /// The abstract value of `self`.
    pub closed spec fn view(&self) -> ArenaView<D, P, C> {
        ArenaView {
            nodes: self.nodes@.map_values(|n: Node<D, P, C>| n@),
            garbage: self.garbage@,
        }
    }

    /// The arena made of `nodes` and the garbage queue `garbage`, as they
    /// are.
    pub fn from_parts(nodes: Vec<Node<D, P, C>>, garbage: VecDeque<NodeIdx>) -> (r: Self)
        ensures
            r@ == (ArenaView { nodes: nodes@.map_values(|n: Node<D, P, C>| n@), garbage: garbage@ }),
    {
        Arena { nodes, garbage }
    }

    /// The nodes and the garbage queue of `self`.
    pub fn into_parts(self) -> (r: (Vec<Node<D, P, C>>, VecDeque<NodeIdx>))
        ensures
            r.0@.map_values(|n: Node<D, P, C>| n@) == self@.nodes,
            r.1@ == self@.garbage,
    {
        (self.nodes, self.garbage)
    }

    /// An empty arena, with room for `cap` nodes before reallocation.
    pub fn with_capacity(cap: usize) -> (r: Self)
        ensures
            r@.nodes == Seq::<NodeView<D, P, C>>::empty(),
            r@.garbage == Seq::<NodeIdx>::empty(),
            r@.wf(),
    {
        let r = Arena { nodes: Vec::with_capacity(cap), garbage: VecDeque::with_capacity(cap) };
        assert(r@.nodes =~= Seq::<NodeView<D, P, C>>::empty());
        r
    }

    /// Whether `self` is well-formed: every node knows its own slot, every
    /// edge and every garbage entry points at an allocated slot, no slot is
    /// queued twice as garbage, and every edge is registered on both of its
    /// ends.
    pub fn is_wf(&self) -> (r: bool)
        ensures
            r == self@.wf(),
    {
        let n = self.nodes.len();
        let ghost v = self@;
        let mut i: usize = 0;
        while i < n
            invariant
                v == self@,
                n == v.nodes.len(),
                0 <= i <= n,
                forall|j: int| 0 <= j < i ==> (#[trigger] v.nodes[j]).idx == NodeIdx(j as usize),
                forall|j: int, k: int|
                    0 <= j < i && 0 <= k < v.nodes[j].children.len() ==> v.has(#[trigger] v.nodes[j].children[k].0),
                forall|j: int, k: int|
                    0 <= j < i && 0 <= k < v.nodes[j].parents.len() ==> v.has(#[trigger] v.nodes[j].parents[k].0),
            decreases n - i,
        {
            let node = &self.nodes[i];
            assert(v.nodes[i as int] == node@);
            if node.idx.0 != i {
                return false;
            }
            if !entries_below(&node.children, n) {
                assert(!v.wf()) by {
                    let k = choose|k: int| 0 <= k < node.children@.len() && !(node.children@[k].0.id() < n);
                    assert(v.nodes[i as int].children[k] == node.children@[k]);
                }
                return false;
            }
            if !entries_below(&node.parents, n) {
                assert(!v.wf()) by {
                    let k = choose|k: int| 0 <= k < node.parents@.len() && !(node.parents@[k].0.id() < n);
                    assert(v.nodes[i as int].parents[k] == node.parents@[k]);
                }
                return false;
            }
            proof {
                assert forall|k: int| 0 <= k < v.nodes[i as int].children.len() implies v.has(
                    #[trigger] v.nodes[i as int].children[k].0,
                ) by {
                    assert(v.nodes[i as int].children[k] == node.children@[k]);
                }
                assert forall|k: int| 0 <= k < v.nodes[i as int].parents.len() implies v.has(
                    #[trigger] v.nodes[i as int].parents[k].0,
                ) by {
                    assert(v.nodes[i as int].parents[k] == node.parents@[k]);
                }
            }
            i = i + 1;
        }
        let mut seen: Vec<bool> = Vec::new();
        let mut j: usize = 0;
        while j < n
            invariant
                0 <= j <= n,
                seen@.len() == j,
                forall|a: int| 0 <= a < j ==> !seen@[a],
            decreases n - j,
        {
            seen.push(false);
            j = j + 1;
        }
        let mut g: usize = 0;
        while g < self.garbage.len()
            invariant
                v == self@,
                n == v.nodes.len(),
                seen@.len() == n,
                0 <= g <= v.garbage.len(),
                forall|a: int| 0 <= a < g ==> v.has(#[trigger] v.garbage[a]),
                forall|a: int| 0 <= a < g ==> seen@[(#[trigger] v.garbage[a]).id()],
                forall|b: int| 0 <= b < n && #[trigger] seen@[b] ==> exists|a: int| 0 <= a < g && v.garbage[a].id() == b,
                forall|a: int, b: int| 0 <= a < g && 0 <= b < g && a != b ==> v.garbage[a] != v.garbage[b],
            decreases v.garbage.len() - g,
        {
            let x = self.garbage[g];
            if x.0 >= n {
                return false;
            }
            if seen[x.0] {
                assert(!v.wf()) by {
                    let a = choose|a: int| 0 <= a < g && v.garbage[a].id() == x.id();
                    assert(v.garbage[a] == v.garbage[g as int]);
                }
                return false;
            }
            seen.set(x.0, true);
            proof {
                assert forall|b: int| 0 <= b < n && #[trigger] seen@[b] implies exists|a: int|
                    0 <= a < g + 1 && v.garbage[a].id() == b by {
                    if b != x.id() {
                        let a = choose|a: int| 0 <= a < g && v.garbage[a].id() == b;
                        assert(0 <= a < g + 1 && v.garbage[a].id() == b);
                    } else {
                        assert(v.garbage[g as int].id() == b);
                    }
                }
                assert forall|a: int, b: int| 0 <= a < g + 1 && 0 <= b < g + 1 && a != b implies v.garbage[a]
                    != v.garbage[b] by {
                    if a == g && b < g {
                        assert(seen@[v.garbage[b].id()] || v.garbage[b] != x);
                    }
                    if b == g && a < g {
                        assert(seen@[v.garbage[a].id()] || v.garbage[a] != x);
                    }
                }
            }
            g = g + 1;
        }
        let mut p: usize = 0;
        while p < n
            invariant
                v == self@,
                n == v.nodes.len(),
                0 <= p <= n,
                forall|j: int| 0 <= j < n ==> (#[trigger] v.nodes[j]).idx == NodeIdx(j as usize),
                forall|j: int, k: int|
                    0 <= j < n && 0 <= k < v.nodes[j].children.len() ==> v.has(#[trigger] v.nodes[j].children[k].0),
                forall|j: int, k: int|
                    0 <= j < n && 0 <= k < v.nodes[j].parents.len() ==> v.has(#[trigger] v.nodes[j].parents[k].0),
                forall|q: int, k: int|
                    0 <= q < p && 0 <= k < v.nodes[q].children.len() ==> v.balanced(
                        q,
                        (#[trigger] v.nodes[q].children[k]).0.id(),
                    ),
            decreases n - p,
        {
            let cs = &self.nodes[p].children;
            assert(cs@ == v.nodes[p as int].children);
            let mut k: usize = 0;
            while k < cs.len()
                invariant
                    v == self@,
                    n == v.nodes.len(),
                    0 <= p < n,
                    cs@ == v.nodes[p as int].children,
                    0 <= k <= cs@.len(),
                    forall|j: int, k: int|
                        0 <= j < n && 0 <= k < v.nodes[j].children.len() ==> v.has(#[trigger] v.nodes[j].children[k].0),
                    forall|q: int, k: int|
                        0 <= q < p && 0 <= k < v.nodes[q].children.len() ==> v.balanced(
                            q,
                            (#[trigger] v.nodes[q].children[k]).0.id(),
                        ),
                    forall|b: int| 0 <= b < k ==> v.balanced(p as int, (#[trigger] cs@[b]).0.id()),
                decreases cs@.len() - k,
            {
                let c = cs[k].0;
                assert(v.has(v.nodes[p as int].children[k as int].0));
                let a = count_entries(cs, c);
                let b = count_entries(&self.nodes[c.0].parents, NodeIdx(p));
                assert(NodeIdx(c.id() as usize) == c);
                if a != b {
                    assert(!v.balanced(p as int, c.id()));
                    return false;
                }
                k = k + 1;
            }
            p = p + 1;
        }
        let mut c: usize = 0;
        while c < n
            invariant
                v == self@,
                n == v.nodes.len(),
                0 <= c <= n,
                forall|j: int, k: int|
                    0 <= j < n && 0 <= k < v.nodes[j].parents.len() ==> v.has(#[trigger] v.nodes[j].parents[k].0),
                forall|q: int, k: int|
                    0 <= q < c && 0 <= k < v.nodes[q].parents.len() ==> v.balanced(
                        (#[trigger] v.nodes[q].parents[k]).0.id(),
                        q,
                    ),
            decreases n - c,
        {
            let ps = &self.nodes[c].parents;
            assert(ps@ == v.nodes[c as int].parents);
            let mut k: usize = 0;
            while k < ps.len()
                invariant
                    v == self@,
                    n == v.nodes.len(),
                    0 <= c < n,
                    ps@ == v.nodes[c as int].parents,
                    0 <= k <= ps@.len(),
                    forall|j: int, k: int|
                        0 <= j < n && 0 <= k < v.nodes[j].parents.len() ==> v.has(#[trigger] v.nodes[j].parents[k].0),
                    forall|q: int, k: int|
                        0 <= q < c && 0 <= k < v.nodes[q].parents.len() ==> v.balanced(
                            (#[trigger] v.nodes[q].parents[k]).0.id(),
                            q,
                        ),
                    forall|b: int| 0 <= b < k ==> v.balanced((#[trigger] ps@[b]).0.id(), c as int),
                decreases ps@.len() - k,
            {
                let q = ps[k].0;
                assert(v.has(v.nodes[c as int].parents[k as int].0));
                let a = count_entries(&self.nodes[q.0].children, NodeIdx(c));
                let b = count_entries(ps, q);
                assert(NodeIdx(q.id() as usize) == q);
                if a != b {
                    assert(!v.balanced(q.id(), c as int));
                    return false;
                }
                k = k + 1;
            }
            c = c + 1;
        }
        proof {
            assert forall|p: int, c: int| 0 <= p < v.nodes.len() && 0 <= c < v.nodes.len() implies #[trigger] v.balanced(
                p,
                c,
            ) by {
                let cx = NodeIdx(c as usize);
                let px = NodeIdx(p as usize);
                lemma_first_index_bounds(v.nodes[p].children, cx);
                lemma_first_index_bounds(v.nodes[c].parents, px);
                if count_of(v.nodes[p].children, cx) > 0 {
                    let k = first_index(v.nodes[p].children, cx);
                    assert(v.balanced(p, v.nodes[p].children[k].0.id()));
                } else if count_of(v.nodes[c].parents, px) > 0 {
                    let k = first_index(v.nodes[c].parents, px);
                    assert(v.balanced(v.nodes[c].parents[k].0.id(), c));
                }
            }
        }
        true
    }

    /// Get the logical size, which is defined as `physical size - garbage size`
    /// i.e. the number of allocated, non-garbage nodes in `self`.
    pub fn logical_size(&self) -> (r: NodeCount)
        requires
            self@.garbage.len() <= self@.nodes.len(),
        ensures
            r.count() == self@.nodes.len() - self@.garbage.len(),
            self@.wf() ==> r.count() == self@.live_slots().len(),
    {
        proof {
            if self@.wf() {
                lemma_logical_size_counts_live(self@);
            }
        }
        NodeCount(self.nodes.len() - self.garbage.len())
    }

    /// Get the physical size, which is defined as the number of nodes
    /// allocated in the arena, whether they are garbage or not.
    pub fn physical_size(&self) -> (r: NodeCount)
        ensures
            r.count() == self@.nodes.len(),
    {
        NodeCount(self.nodes.len())
    }

    /// Get the garbage size i.e. the number of garbage nodes in `self`.
    pub fn garbage_size(&self) -> (r: NodeCount)
        ensures
            r.count() == self@.garbage.len(),
    {
        NodeCount(self.garbage.len())
    }

    /// The node in slot `idx`.
    pub fn node(&self, idx: NodeIdx) -> (r: &Node<D, P, C>)
        requires
            self@.has(idx),
        ensures
            r@ == self@.node(idx),
    {
        &self.nodes[idx.0]
    }

    /// A mutable borrow of the node in slot `idx`.
    pub fn node_mut(&mut self, idx: NodeIdx) -> (r: &mut Node<D, P, C>)
        requires
            old(self)@.has(idx),
        ensures
            (*r)@ == old(self)@.node(idx),
            final(self)@ == (ArenaView {
                nodes: old(self)@.nodes.update(idx.id(), (*final(r))@),
                ..old(self)@
            }),
    {
        &mut self.nodes[idx.0]
    }

    /// A mutable borrow of the data of the leftmost parent edge from
    /// `self[src]` to `self[dst]`, if there is one.
    pub fn parent_data_mut(&mut self, src: NodeIdx, dst: NodeIdx) -> (r: Option<&mut P>)
        requires
            old(self)@.has(src),
        ensures
            match r {
                Some(d) => {
                    let ps = old(self)@.node(src).parents;
                    let i = first_index(ps, dst);
                    &&& i >= 0
                    &&& *d == ps[i].1
                    &&& final(self)@ == old(self)@.with_parents(src, ps.update(i, (dst, *final(d))))
                },
                None => {
                    &&& count_of(old(self)@.node(src).parents, dst) == 0
                    &&& final(self)@ == old(self)@
                },
            },
    {
        proof {
            lemma_first_index_bounds(self@.node(src).parents, dst);
        }
        match self.nodes[src.0].get_parent_ordinal(dst) {
            Some(i) => Some(&mut self.nodes[src.0].parents[i].1),
            None => None,
        }
    }

    /// A mutable borrow of the data of the node in slot `idx`.
    pub fn data_mut(&mut self, idx: NodeIdx) -> (r: &mut D)
        requires
            old(self)@.has(idx),
        ensures
            *r == old(self)@.node(idx).data,
            final(self)@ == old(self)@.with_data(idx, *final(r)),
    {
        &mut self.nodes[idx.0].data
    }

    /// If there is a garbage `Node<D>`in `self`, recycle it.
    /// Otherwise, allocate a new one.
    /// In either case, assign `data` to the node, and return its `NodeIdx`.
    pub fn add_node(&mut self, data: D) -> (r: NodeIdx)
        requires
            old(self)@.wf(),
        ensures
            final(self)@.wf(),
            final(self)@.has(r),
            (final(self)@, r) == old(self)@.allocate(data),
            old(self)@.garbage_clean() ==> {
                &&& final(self)@.garbage_clean()
                &&& final(self)@.node(r).parents.len() == 0
                &&& final(self)@.node(r).children.len() == 0
            },
    {
        proof {
            if self@.garbage_clean() {
                lemma_allocate_clean(self@, data);
            }
        }
        let ghost v0 = self@;
        match self.garbage.pop_front() {
            Some(node_idx) => {
                assert(v0.has(v0.garbage[0]));
                self.nodes[node_idx.0].data = data;
                proof {
                    assert(self@.nodes =~= v0.with_data(node_idx, data).nodes);
                    assert(self@.garbage =~= v0.garbage.drop_first());
                    assert forall|k: int| 0 <= k < self@.garbage.len() implies self@.has(
                        #[trigger] self@.garbage[k],
                    ) by {
                        assert(self@.garbage[k] == v0.garbage[k + 1]);
                    }
                    assert forall|a: int, b: int|
                        0 <= a < self@.garbage.len() && 0 <= b < self@.garbage.len() && a != b implies self@.garbage[a]
                        != self@.garbage[b] by {
                        assert(self@.garbage[a] == v0.garbage[a + 1]);
                        assert(self@.garbage[b] == v0.garbage[b + 1]);
                    }
                    lemma_wf_same_shape(v0, self@);
                    assert(self@.wf());
                }
                node_idx
            },
            None => {
                let node_idx = NodeIdx(self.nodes.len());
                self.nodes.push(Node::new(node_idx, data));
                proof {
                    let nv = NodeView::<D, P, C> {
                        idx: node_idx,
                        parents: Seq::empty(),
                        children: Seq::empty(),
                        data,
                    };
                    assert(self@.nodes =~= v0.nodes.push(nv));
                    assert(self.nodes@.len() == self.nodes.len());
                    assert forall|p: int, c: int|
                        0 <= p < self@.nodes.len() && 0 <= c < self@.nodes.len() implies #[trigger] self@.balanced(
                        p,
                        c,
                    ) by {
                        if p < v0.nodes.len() && c < v0.nodes.len() {
                            assert(v0.balanced(p, c));
                        } else if p == v0.nodes.len() && c == v0.nodes.len() {
                        } else if p == v0.nodes.len() {
                            lemma_count_zero_of_absent(v0.nodes[c].parents, NodeIdx(p as usize), v0);
                        } else {
                            lemma_count_zero_of_absent(v0.nodes[p].children, NodeIdx(c as usize), v0);
                        }
                    }
                    assert forall|i: int| 0 <= i < self@.nodes.len() implies (#[trigger] self@.nodes[i]).idx == NodeIdx(
                        i as usize,
                    ) by {
                        if i < v0.nodes.len() {
                            assert(self@.nodes[i] == v0.nodes[i]);
                        }
                    }
                    assert forall|i: int, k: int|
                        0 <= i < self@.nodes.len() && 0 <= k < self@.nodes[i].children.len() implies self@.has(
                            #[trigger] self@.nodes[i].children[k].0,
                        ) by {
                        assert(self@.nodes[i] == v0.nodes[i]);
                        assert(v0.has(v0.nodes[i].children[k].0));
                    }
                    assert forall|i: int, k: int|
                        0 <= i < self@.nodes.len() && 0 <= k < self@.nodes[i].parents.len() implies self@.has(
                            #[trigger] self@.nodes[i].parents[k].0,
                        ) by {
                        assert(self@.nodes[i] == v0.nodes[i]);
                        assert(v0.has(v0.nodes[i].parents[k].0));
                    }
                    assert forall|k: int| 0 <= k < self@.garbage.len() implies self@.has(#[trigger] self@.garbage[k]) by {
                        assert(v0.has(v0.garbage[k]));
                    }
                    assert(self@.wf());
                }
                node_idx
            },
        }
    }

    /// Put `nidx` at the back of the garbage queue, unless it is queued
    /// already.
    pub fn add_garbage(&mut self, nidx: NodeIdx)
        requires
            old(self)@.wf(),
            old(self)@.has(nidx),
        ensures
            final(self)@.wf(),
            final(self)@ == (ArenaView { garbage: enqueue_one(old(self)@.garbage, nidx), ..old(self)@ }),
    {
        let ghost v0 = self@;
        if !self.is_garbage(nidx) {
            self.garbage.push_back(nidx);
        }
        proof {
            lemma_enqueue_one(v0.garbage, nidx);
            assert(self@ =~= (ArenaView { garbage: enqueue_one(v0.garbage, nidx), ..v0 }));
            assert forall|k: int| 0 <= k < self@.garbage.len() implies self@.has(#[trigger] self@.garbage[k]) by {
                assert(self@.garbage.contains(self@.garbage[k]));
                if self@.garbage[k] != nidx {
                    let m = choose|m: int| 0 <= m < v0.garbage.len() && v0.garbage[m] == self@.garbage[k];
                    assert(v0.has(v0.garbage[m]));
                }
            }
            assert forall|p: int, c: int|
                0 <= p < self@.nodes.len() && 0 <= c < self@.nodes.len() implies #[trigger] self@.balanced(
                p,
                c,
            ) by {
                assert(v0.balanced(p, c));
            }
        }
    }

    /// Add a bidirectional edge between `self[pidx]` and `self[cidx]`.
    /// The former registers the latter as a child, while the latter
    /// registers the former as a parent.
    /// In addition, `pdata` is assigned to the parent edge `cidx -> pidx`
    /// while `cdata` is assigned to the child edge `pidx -> cidx`.
    pub fn add_edge(&mut self, edge: (NodeIdx, NodeIdx), pdata: P, cdata: C)
        requires
            old(self)@.wf(),
            old(self)@.has(edge.0),
            old(self)@.has(edge.1),
        ensures
            final(self)@ == old(self)@.link(edge.0, edge.1, pdata, cdata),
            final(self)@.wf(),
    {
        let (pidx, cidx) = edge;
        let ghost v0 = self@;
        self.nodes[pidx.0].add_child(cidx, cdata);
        assert(self@ =~= v0.with_children(pidx, v0.node(pidx).children.push((cidx, cdata))));
        let ghost v1 = self@;
        self.nodes[cidx.0].add_parent(pidx, pdata);
        assert(self@ =~= v1.with_parents(cidx, v1.node(cidx).parents.push((pidx, pdata))));
        proof {
            lemma_wf_link(v0, pidx, cidx, pdata, cdata);
        }
    }

    /// Insert a bidirectional edge between `self[pidx]` and `self[cidx]`.
    /// The former registers the latter as a child, while the latter
    /// registers the former as a parent.
    /// Parent `(pidx, pdata)` is inserted in `self[cidx].parents` at position
    /// `ppos`, or appended if `ppos` is `None`.
    /// Similarly, child `(cidx, cdata)` is inserted in `self[pidx].children`
    /// at position `cpos`, or appended if `cpos` is `None`.
    pub fn insert_edge(
        &mut self,
        parent: (NodeIdx, P, Option<usize>),
        child: (NodeIdx, C, Option<usize>),
    )
        requires
            old(self)@.wf(),
            old(self)@.has(parent.0),
            old(self)@.has(child.0),
            child.2 matches Some(i) ==> i <= old(self)@.node(parent.0).children.len(),
            parent.2 matches Some(i) ==> i <= old(self)@.node(child.0).parents.len(),
        ensures
            final(self)@ == old(self)@.link_at(
                parent.0,
                child.0,
                parent.1,
                child.1,
                parent.2,
                child.2,
            ),
            final(self)@.wf(),
    {
        let (pidx, pdata, ppos) = parent;
        let (cidx, cdata, cpos) = child;
        let ghost v0 = self@;
        if let Some(child_pos) = cpos {
            self.nodes[pidx.0].insert_child(cidx, cdata, child_pos);
        } else {
            self.nodes[pidx.0].add_child(cidx, cdata);
        }
        let ghost cs = match cpos {
            Some(i) => v0.node(pidx).children.insert(i as int, (cidx, cdata)),
            None => v0.node(pidx).children.push((cidx, cdata)),
        };
        assert(self@ =~= v0.with_children(pidx, cs));
        let ghost v1 = self@;
        if let Some(parent_pos) = ppos {
            self.nodes[cidx.0].insert_parent(pidx, pdata, parent_pos);
        } else {
            self.nodes[cidx.0].add_parent(pidx, pdata);
        }
        let ghost ps = match ppos {
            Some(i) => v1.node(cidx).parents.insert(i as int, (pidx, pdata)),
            None => v1.node(cidx).parents.push((pidx, pdata)),
        };
        assert(self@ =~= v1.with_parents(cidx, ps));
        proof {
            lemma_wf_link_at(v0, pidx, cidx, pdata, cdata, ppos, cpos);
        }
    }

    /// Remove the edge between `self[parent_idx]` and `self[child_idx]`:
    /// the leftmost child entry of the former that points at the latter,
    /// and the leftmost parent entry of the latter that points at the
    /// former.  Return the data of both entries, or an error if no such
    /// edge exists.
    pub fn rm_edge(&mut self, parent_idx: NodeIdx, child_idx: NodeIdx) -> (r: Result<(P, C)>)
        requires
            old(self)@.wf(),
            old(self)@.has(parent_idx),
            old(self)@.has(child_idx),
        ensures
            final(self)@.wf(),
            match r {
                Ok((pdata, cdata)) => {
                    &&& old(self)@.has_edge(parent_idx, child_idx)
                    &&& final(self)@ == old(self)@.unlink(parent_idx, child_idx)
                    &&& cdata == old(self)@.node(parent_idx).children[first_index(
                        old(self)@.node(parent_idx).children,
                        child_idx,
                    )].1
                    &&& pdata == old(self)@.node(child_idx).parents[first_index(
                        old(self)@.node(child_idx).parents,
                        parent_idx,
                    )].1
                },
                Err(e) => {
                    &&& !old(self)@.has_edge(parent_idx, child_idx)
                    &&& e == Error::ChildNotFound { node_idx: parent_idx, child_idx }
                    &&& final(self)@ == old(self)@
                },
            },
    {
        let ghost v0 = self@;
        assert(v0.nodes[parent_idx.id()].idx == parent_idx);
        let cdata = match self.nodes[parent_idx.0].remove_child(child_idx) {
            Ok(cdata) => cdata,
            Err(e) => {
                assert(self@ =~= v0);
                return Err(e);
            },
        };
        proof {
            lemma_first_index_bounds(v0.node(parent_idx).children, child_idx);
            lemma_wf_unlink(v0, parent_idx, child_idx);
        }
        let ghost cs = remove_first(v0.node(parent_idx).children, child_idx);
        assert(self@ =~= v0.with_children(parent_idx, cs));
        let ghost v1 = self@;
        assert(v1.node(child_idx).parents == v0.node(child_idx).parents);
        let pdata = match self.nodes[child_idx.0].remove_parent(parent_idx) {
            Ok(pdata) => pdata,
            Err(e) => {
                proof {
                    lemma_first_index_bounds(v0.node(child_idx).parents, parent_idx);
                }
                assert(false);
                return Err(e);
            },
        };
        assert(self@ =~= v1.with_parents(child_idx, remove_first(v1.node(child_idx).parents, parent_idx)));
        Ok((pdata, cdata))
    }

    /// Remove all edges between each `self[parent_idx]` on the one hand, and
    /// each `self[child_idx]` on the other, parent by parent.  Return an
    /// error for the first of the `|parent_idxs| * |child_idxs|` edges that
    /// does not exist; the edges before it stay removed.
    pub fn rm_edges(&mut self, parent_idxs: &[NodeIdx], child_idxs: &[NodeIdx]) -> (r: Result<()>)
        requires
            old(self)@.wf(),
            child_idxs@.len() > 0 ==> forall|k: int|
                0 <= k < parent_idxs@.len() ==> old(self)@.has(#[trigger] parent_idxs@[k]),
            parent_idxs@.len() > 0 ==> forall|k: int|
                0 <= k < child_idxs@.len() ==> old(self)@.has(#[trigger] child_idxs@[k]),
        ensures
            final(self)@.wf(),
            final(self)@ == old(self)@.unlink_pairs(grid(parent_idxs@, child_idxs@)).0,
            match old(self)@.unlink_pairs(grid(parent_idxs@, child_idxs@)).1 {
                None => r is Ok,
                Some((p, c)) => r == Err::<(), Error>(Error::ChildNotFound { node_idx: p, child_idx: c }),
            },
    {
        let ghost v0 = self@;
        let ghost ps = parent_idxs@;
        let ghost cs = child_idxs@;
        let mut i: usize = 0;
        while i < parent_idxs.len()
            invariant
                v0.wf(),
                v0 == old(self)@,
                ps == parent_idxs@,
                cs == child_idxs@,
                cs.len() > 0 ==> forall|k: int| 0 <= k < ps.len() ==> v0.has(#[trigger] ps[k]),
                ps.len() > 0 ==> forall|k: int| 0 <= k < cs.len() ==> v0.has(#[trigger] cs[k]),
                0 <= i <= ps.len(),
                self@.wf(),
                self@.nodes.len() == v0.nodes.len(),
                v0.unlink_pairs(grid(ps.take(i as int), cs)) == (self@, None::<(NodeIdx, NodeIdx)>),
            decreases ps.len() - i,
        {
            let pidx = parent_idxs[i];
            let mut j: usize = 0;
            while j < child_idxs.len()
                invariant
                    v0.wf(),
                    v0 == old(self)@,
                    ps == parent_idxs@,
                    cs == child_idxs@,
                    cs.len() > 0 ==> forall|k: int| 0 <= k < ps.len() ==> v0.has(#[trigger] ps[k]),
                    ps.len() > 0 ==> forall|k: int| 0 <= k < cs.len() ==> v0.has(#[trigger] cs[k]),
                    0 <= i < ps.len(),
                    pidx == ps[i as int],
                    0 <= j <= cs.len(),
                    self@.wf(),
                    self@.nodes.len() == v0.nodes.len(),
                    v0.unlink_pairs(
                        grid(ps.take(i as int), cs) + cs.take(j as int).map_values(
                            |c: NodeIdx| (pidx, c),
                        ),
                    ) == (self@, None::<(NodeIdx, NodeIdx)>),
                decreases cs.len() - j,
            {
                let cidx = child_idxs[j];
                let ghost done = grid(ps.take(i as int), cs) + cs.take(j as int).map_values(
                    |c: NodeIdx| (pidx, c),
                );
                let ghost done2 = grid(ps.take(i as int), cs) + cs.take(j + 1).map_values(
                    |c: NodeIdx| (pidx, c),
                );
                assert(done2 =~= done.push((pidx, cidx)));
                assert(done2.drop_last() =~= done);
                match self.rm_edge(pidx, cidx) {
                    Ok(_) => {},
                    Err(e) => {
                        proof {
                            lemma_grid_split(ps, cs, i as int, j as int + 1);
                            assert(done2 =~= grid(ps.take(i as int), cs) + cs.take(j + 1).map_values(
                                |c: NodeIdx| (ps[i as int], c),
                            ));
                            let rest = grid(ps, cs).subrange(done2.len() as int, grid(ps, cs).len() as int);
                            assert(v0.unlink_pairs(done2) == (self@, Some((pidx, cidx))));
                            lemma_unlink_pairs_stuck(v0, done2, rest);
                            assert(done2 + rest =~= grid(ps, cs));
                        }
                        return Err(e);
                    },
                }
                j = j + 1;
            }
            proof {
                assert(cs.take(j as int) =~= cs);
                assert(ps.take(i + 1).drop_last() =~= ps.take(i as int));
                assert(ps.take(i + 1).last() == pidx);
            }
            i = i + 1;
        }
        assert(ps.take(i as int) =~= ps);
        Ok(())
    }

    /// The parent edge of `self[src]` that leads to `self[dst]`: the leftmost
    /// parent entry of `src` that points at `dst`.
    pub fn parent_edge(&self, src: NodeIdx, dst: NodeIdx) -> (r: Option<Edge<NodeIdx, &P>>)
        requires
            self@.wf(),
            self@.has(src),
        ensures
            match r {
                Some(e) => {
                    &&& first_index(self@.node(src).parents, dst) >= 0
                    &&& e.src == src
                    &&& e.dst == dst
                    &&& *e.data == self@.node(src).parents[first_index(self@.node(src).parents, dst)].1
                },
                None => count_of(self@.node(src).parents, dst) == 0,
            },
    {
        let node = &self.nodes[src.0];
        assert(node@ == self@.node(src));
        match node.get_parent_ordinal(dst) {
            Some(i) => {
                proof {
                    lemma_first_index_bounds(node.parents@, dst);
                }
                Some(Edge { src: node.idx, dst: node.parents[i].0, data: &node.parents[i].1 })
            },
            None => {
                proof {
                    lemma_first_index_bounds(node.parents@, dst);
                }
                None
            },
        }
    }

    /// The child edge of `self[src]` that leads to `self[dst]`: the leftmost
    /// child entry of `src` that points at `dst`.
    pub fn child_edge(&self, src: NodeIdx, dst: NodeIdx) -> (r: Option<Edge<NodeIdx, &C>>)
        requires
            self@.wf(),
            self@.has(src),
        ensures
            match r {
                Some(e) => {
                    &&& first_index(self@.node(src).children, dst) >= 0
                    &&& e.src == src
                    &&& e.dst == dst
                    &&& *e.data == self@.node(src).children[first_index(
                        self@.node(src).children,
                        dst,
                    )].1
                },
                None => count_of(self@.node(src).children, dst) == 0,
            },
    {
        let node = &self.nodes[src.0];
        assert(node@ == self@.node(src));
        match node.get_child_ordinal(dst) {
            Some(i) => {
                proof {
                    lemma_first_index_bounds(node.children@, dst);
                }
                Some(Edge { src: node.idx, dst: node.children[i].0, data: &node.children[i].1 })
            },
            None => {
                proof {
                    lemma_first_index_bounds(node.children@, dst);
                }
                None
            },
        }
    }

    /// The indices of the children of `self[node_idx]`, leftmost first.
    pub fn children_of(&self, node_idx: NodeIdx) -> (r: Vec<NodeIdx>)
        requires
            self@.has(node_idx),
        ensures
            r@ == self@.children_of(node_idx),
    {
        self.nodes[node_idx.0].child_idxs()
    }

    /// The indices of the parents of `self[node_idx]`, leftmost first.
    pub fn parents_of(&self, node_idx: NodeIdx) -> (r: Vec<NodeIdx>)
        requires
            self@.has(node_idx),
        ensures
            r@ == self@.parents_of(node_idx),
    {
        self.nodes[node_idx.0].parent_idxs()
    }

    /// The neighbours of each node of `xs` in turn: parents when `up`,
    /// children otherwise.
    fn neighbors_of_all(&self, xs: &Vec<NodeIdx>, up: bool) -> (r: Vec<NodeIdx>)
        requires
            self@.wf(),
            forall|k: int| 0 <= k < xs@.len() ==> self@.has(#[trigger] xs@[k]),
        ensures
            r@ == self@.neighbors_of_all(xs@, up),
            forall|k: int| 0 <= k < r@.len() ==> self@.has(#[trigger] r@[k]),
    {
        let mut r: Vec<NodeIdx> = Vec::new();
        let mut i: usize = 0;
        while i < xs.len()
            invariant
                self@.wf(),
                forall|k: int| 0 <= k < xs@.len() ==> self@.has(#[trigger] xs@[k]),
                0 <= i <= xs@.len(),
                r@ == self@.neighbors_of_all(xs@.take(i as int), up),
                forall|k: int| 0 <= k < r@.len() ==> self@.has(#[trigger] r@[k]),
            decreases xs@.len() - i,
        {
            let x = xs[i];
            let mut more = if up {
                self.parents_of(x)
            } else {
                self.children_of(x)
            };
            proof {
                assert(xs@.take(i + 1).drop_last() =~= xs@.take(i as int));
                assert(xs@.take(i + 1).last() == x);
                assert forall|k: int| 0 <= k < more@.len() implies self@.has(#[trigger] more@[k]) by {
                    if up {
                        assert(more@[k] == self@.node(x).parents[k].0);
                    } else {
                        assert(more@[k] == self@.node(x).children[k].0);
                    }
                }
            }
            let ghost before = r@;
            r.append(&mut more);
            proof {
                assert forall|k: int| 0 <= k < r@.len() implies self@.has(#[trigger] r@[k]) by {
                    if k < before.len() {
                        assert(r@[k] == before[k]);
                    } else {
                        assert(r@[k] == self@.neighbors_of(x, up)[k - before.len()]);
                    }
                }
            }
            i = i + 1;
        }
        assert(xs@.take(i as int) =~= xs@);
        r
    }

    /// Breadth-first exploration from `start`, layer by layer, downwards
    /// (`up == false`) or upwards (`up == true`).
    fn layered(&self, start: NodeIdx, up: bool) -> (r: Vec<NodeIdx>)
        requires
            self@.wf(),
            self@.has(start),
        ensures
            r@ == self@.layers(seq![start], up, self@.nodes.len()),
    {
        let ghost goal = self@.layers(seq![start], up, self@.nodes.len());
        let mut output: Vec<NodeIdx> = Vec::new();
        let mut layer: Vec<NodeIdx> = Vec::new();
        layer.push(start);
        let mut fuel: usize = self.nodes.len();
        assert(layer@ =~= seq![start]);
        loop
            invariant
                self@.wf(),
                forall|k: int| 0 <= k < layer@.len() ==> self@.has(#[trigger] layer@[k]),
                output@ + self@.layers(layer@, up, fuel as nat) == goal,
            ensures
                output@ == goal,
            decreases fuel,
        {
            if fuel == 0 {
                output.append(&mut layer);
                break;
            }
            let mut next = self.neighbors_of_all(&layer, up);
            if next.len() == 0 {
                output.append(&mut layer);
                break;
            }
            let ghost l = layer@;
            let ghost o = output@;
            output.append(&mut layer);
            assert(o + (l + self@.layers(next@, up, (fuel - 1) as nat)) =~= (o + l) + self@.layers(
                next@,
                up,
                (fuel - 1) as nat,
            ));
            layer = next;
            fuel = fuel - 1;
        }
        output
    }

    /// The nodes of `self` in breadth-first order, starting at `start_idx`.
    pub fn bfs(&self, start_idx: NodeIdx) -> (r: Vec<NodeIdx>)
        requires
            self@.wf(),
            self@.has(start_idx),
        ensures
            r@ == self@.bfs_from(start_idx),
    {
        self.layered(start_idx, false)
    }

    /// `self[node_idx]` and its ancestors, layer by layer upwards: first
    /// `node_idx`, then its parents, then theirs, and so on.
    pub fn self_or_ancestors_of(&self, node_idx: NodeIdx) -> (r: Vec<NodeIdx>)
        requires
            self@.wf(),
            self@.has(node_idx),
        ensures
            r@ == self@.ancestry_of(node_idx),
    {
        self.layered(node_idx, true)
    }

    /// The outline of `self[x]` and the nodes below it: each node, in
    /// pre-order, with its number of ancestors.
    pub(crate) fn outline_from(&self, x: NodeIdx) -> (r: Vec<(usize, NodeIdx)>)
        requires
            self@.wf(),
            self@.has(x),
        ensures
            rows_view(r@) == self@.outline_from(x),
    {
        let ghost v = self@;
        let pre = self.dfs(x);
        proof {
            lemma_preorder_in_range(v, x);
        }
        let mut r: Vec<(usize, NodeIdx)> = Vec::with_capacity(pre.len());
        let mut j: usize = 0;
        while j < pre.len()
            invariant
                v == self@,
                v.wf(),
                pre@ == v.preorder(x),
                forall|k: int| 0 <= k < pre@.len() ==> v.has(#[trigger] pre@[k]),
                0 <= j <= pre@.len(),
                rows_view(r@) == pre@.take(j as int).map_values(|n: NodeIdx| v.outline_row(n)),
            decreases pre@.len() - j,
        {
            let node = pre[j];
            assert(v.has(pre@[j as int]));
            let all = self.self_or_ancestors_of(node);
            let mut depth: usize = 0;
            let mut k: usize = 0;
            while k < all.len()
                invariant
                    0 <= k <= all@.len(),
                    depth == others(all@.take(k as int), node),
                    depth <= k,
                decreases all@.len() - k,
            {
                assert(all@.take(k + 1).drop_last() =~= all@.take(k as int));
                if all[k] != node {
                    depth = depth + 1;
                }
                k = k + 1;
            }
            assert(all@.take(k as int) =~= all@);
            let ghost r0 = r@;
            r.push((depth, node));
            assert(rows_view(r@) =~= rows_view(r0).push(v.outline_row(node)));
            assert(pre@.take(j + 1).map_values(|n: NodeIdx| v.outline_row(n)) =~= pre@.take(
                j as int,
            ).map_values(|n: NodeIdx| v.outline_row(n)).push(v.outline_row(node)));
            j = j + 1;
        }
        assert(pre@.take(j as int) =~= pre@);
        r
    }

    /// The ancestors of `self[node_idx]`, layer by layer upwards.
    pub fn ancestors_of(&self, node_idx: NodeIdx) -> (r: Vec<NodeIdx>)
        requires
            self@.wf(),
            self@.has(node_idx),
        ensures
            r@ == self@.ancestry_of(node_idx).filter(|y: NodeIdx| y != node_idx),
    {
        let all = self.self_or_ancestors_of(node_idx);
        without_idx(&all, node_idx)
    }

    /// The children of each parent of `self[node_idx]`, parent by parent:
    /// `node_idx` itself included.
    pub fn self_or_siblings_of(&self, node_idx: NodeIdx) -> (r: Vec<NodeIdx>)
        requires
            self@.wf(),
            self@.has(node_idx),
        ensures
            r@ == self@.neighbors_of_all(self@.parents_of(node_idx), false),
    {
        let parents = self.parents_of(node_idx);
        proof {
            assert forall|k: int| 0 <= k < parents@.len() implies self@.has(#[trigger] parents@[k]) by {
                assert(parents@[k] == self@.node(node_idx).parents[k].0);
            }
        }
        self.neighbors_of_all(&parents, false)
    }

    /// The children of each parent of `self[node_idx]`, parent by parent,
    /// except `node_idx` itself.
    pub fn siblings_of(&self, node_idx: NodeIdx) -> (r: Vec<NodeIdx>)
        requires
            self@.wf(),
            self@.has(node_idx),
        ensures
            r@ == self@.neighbors_of_all(self@.parents_of(node_idx), false).filter(
                |y: NodeIdx| y != node_idx,
            ),
    {
        let all = self.self_or_siblings_of(node_idx);
        without_idx(&all, node_idx)
    }

    /// The nodes below (and including) `self[node_idx]`, in pre-order.
    pub fn self_or_descendants_of(&self, node_idx: NodeIdx) -> (r: Vec<NodeIdx>)
        requires
            self@.wf(),
            self@.has(node_idx),
        ensures
            r@ == self@.preorder(node_idx),
    {
        self.dfs(node_idx)
    }

    /// The nodes below `self[node_idx]`, in pre-order, except `node_idx`.
    pub fn descendants_of(&self, node_idx: NodeIdx) -> (r: Vec<NodeIdx>)
        requires
            self@.wf(),
            self@.has(node_idx),
        ensures
            r@ == self@.preorder(node_idx).filter(|y: NodeIdx| y != node_idx),
    {
        let all = self.dfs(node_idx);
        without_idx(&all, node_idx)
    }

    /// The nodes below (and including) `self[start_idx]` in pre-order:
    /// each node comes before the nodes below it, and the children of a
    /// node are visited left to right.
    pub fn dfs(&self, start_idx: NodeIdx) -> (r: Vec<NodeIdx>)
        requires
            self@.wf(),
            self@.has(start_idx),
        ensures
            r@ == self@.preorder(start_idx),
    {
        let ghost v = self@;
        let ghost goal = v.preorder(start_idx);
        let mut output: Vec<NodeIdx> = Vec::with_capacity(self.nodes.len());
        let mut stack: Vec<(NodeIdx, usize)> = Vec::new();
        stack.push((start_idx, self.nodes.len()));
        proof {
            assert(stack@.drop_last() =~= Seq::<(NodeIdx, usize)>::empty());
            assert(v.pending(stack@.drop_last()) =~= Seq::<NodeIdx>::empty());
            assert(v.pending(stack@) =~= goal);
        }
        loop
            invariant
                v == self@,
                v.wf(),
                forall|k: int| 0 <= k < stack@.len() ==> v.has(#[trigger] stack@[k].0),
                output@ + v.pending(stack@) == goal,
            ensures
                output@ == goal,
            decreases v.pending(stack@).len(), stack@.len(),
        {
            let ghost st0 = stack@;
            match stack.pop() {
                None => {
                    assert(output@ =~= goal);
                    break;
                },
                Some(frame) => {
                    let (x, f) = frame;
                    let ghost rest = stack@;
                    assert(rest =~= st0.drop_last());
                    assert(v.has(st0[st0.len() - 1].0));
                    if f > 0 {
                        let ghost o = output@;
                        output.push(x);
                        let node = &self.nodes[x.0];
                        assert(node@ == v.node(x));
                        let ghost cs = v.children_of(x);
                        let mut k: usize = node.children.len();
                        assert(cs.subrange(k as int, cs.len() as int) =~= Seq::<NodeIdx>::empty());
                        while k > 0
                            invariant
                                v == self@,
                                v.wf(),
                                node@ == v.node(x),
                                v.has(x),
                                cs == v.children_of(x),
                                0 <= k <= cs.len(),
                                f > 0,
                                forall|j: int| 0 <= j < stack@.len() ==> v.has(#[trigger] stack@[j].0),
                                v.pending(stack@) == v.dfs_list(
                                    cs.subrange(k as int, cs.len() as int),
                                    (f - 1) as nat,
                                ) + v.pending(rest),
                            decreases k,
                        {
                            k = k - 1;
                            let c = node.children[k].0;
                            assert(c == cs[k as int]);
                            assert(v.has(v.node(x).children[k as int].0));
                            let ghost st1 = stack@;
                            stack.push((c, f - 1));
                            proof {
                                assert(stack@.drop_last() =~= st1);
                                let xs = cs.subrange(k as int, cs.len() as int);
                                assert(xs[0] == c);
                                assert(xs.drop_first() =~= cs.subrange(k + 1, cs.len() as int));
                                assert(v.pending(stack@) =~= v.dfs_list(xs, (f - 1) as nat) + v.pending(
                                    rest,
                                ));
                            }
                        }
                        proof {
                            assert(cs.subrange(0, cs.len() as int) =~= cs);
                            assert(output@ + v.pending(stack@) =~= o + v.pending(st0));
                        }
                    } else {
                        assert(v.pending(st0) =~= v.pending(rest));
                    }
                },
            }
        }
        output
    }

    /// Remove every parent edge of `self[x]`, on both of its ends.
    pub(crate) fn detach_parents(&mut self, x: NodeIdx)
        requires
            old(self)@.wf(),
            old(self)@.has(x),
        ensures
            final(self)@.wf(),
            final(self)@ == old(self)@.detach(set![x]),
    {
        let ghost w0 = self@;
        let ps = self.parents_of(x);
        let mut m: usize = 0;
        proof {
            assert(w0.node(x).parents.skip(0) =~= w0.node(x).parents);
            assert forall|y: NodeIdx| w0.has(y) implies #[trigger] occurrences(ps@.take(0), y) == 0 by {
                assert(ps@.take(0).len() == 0);
            }
        }
        while m < ps.len()
            invariant
                w0.wf(),
                w0.has(x),
                ps@ == w0.parents_of(x),
                0 <= m <= ps@.len(),
                unlinking(self@, w0, x, ps@, m as int),
            decreases ps@.len() - m,
        {
            let p = ps[m];
            let ghost cur = self@;
            proof {
                lemma_unlinking_edge(cur, w0, x, ps@, m as int);
            }
            match self.rm_edge(p, x) {
                Ok(_) => {},
                Err(e) => {
                    assert(false);
                    return;
                },
            }
            proof {
                lemma_unlinking_step(cur, self@, w0, x, ps@, m as int);
            }
            m = m + 1;
        }
        proof {
            lemma_unlinking_done(self@, w0, x, ps@);
        }
    }

    /// Recycle `self[node_idx]`.  Since a node conceptually owns its
    /// children, all descendant nodes and all edges between them are removed
    /// as well: the nodes below `node_idx` are visited in reverse pre-order
    /// (leaves first), each loses its parent edges and is queued as garbage
    /// unless it is queued already.  Each of them ends without edges.
    /// Return an error if `node_idx` designates no slot.
    pub fn rm_node(&mut self, node_idx: NodeIdx) -> (r: Result<()>)
        requires
            old(self)@.wf(),
        ensures
            final(self)@.wf(),
            match r {
                Ok(()) => {
                    &&& old(self)@.has(node_idx)
                    &&& final(self)@ == old(self)@.recycle(node_idx)
                    &&& forall|k: int|
                        0 <= k < old(self)@.preorder(node_idx).len() ==> final(self)@.is_removed(
                            #[trigger] old(self)@.preorder(node_idx)[k],
                        )
                    &&& old(self)@.garbage_clean() ==> final(self)@.garbage_clean()
                },
                Err(e) => {
                    &&& !old(self)@.has(node_idx)
                    &&& e == Error::NodeNotFound(node_idx)
                    &&& final(self)@ == old(self)@
                },
            },
    {
        if node_idx.0 >= self.nodes.len() {
            return Err(Error::NodeNotFound(node_idx));
        }
        let ghost v0 = self@;
        let order = self.dfs(node_idx);
        let ghost ord = order@;
        proof {
            lemma_preorder_in_range(v0, node_idx);
            let none = ord.subrange(ord.len() as int, ord.len() as int);
            assert(members(none) =~= Set::<NodeIdx>::empty());
            lemma_detach_nothing(v0);
            assert(none.reverse() =~= Seq::<NodeIdx>::empty());
            assert(enqueue(v0.garbage, none.reverse()) == v0.garbage);
            assert(self@ =~= (ArenaView {
                garbage: enqueue(v0.garbage, none.reverse()),
                ..v0.detach(members(none))
            }));
        }
        let mut i: usize = order.len();
        while i > 0
            invariant
                v0.wf(),
                v0 == old(self)@,
                ord == order@,
                forall|k: int| 0 <= k < ord.len() ==> v0.has(#[trigger] ord[k]),
                0 <= i <= ord.len(),
                self@.wf(),
                self@ == (ArenaView {
                    garbage: enqueue(v0.garbage, ord.subrange(i as int, ord.len() as int).reverse()),
                    ..v0.detach(members(ord.subrange(i as int, ord.len() as int)))
                }),
            decreases i,
        {
            i = i - 1;
            let x = order[i];
            let ghost done = members(ord.subrange(i + 1, ord.len() as int));
            assert(v0.has(ord[i as int]));
            self.detach_parents(x);
            let ghost w1 = self@;
            if !self.is_garbage(x) {
                self.garbage.push_back(x);
            }
            proof {
                lemma_members_extend(ord, i as int);
                lemma_detach_detach(v0, done, x);
                let tail = ord.subrange(i + 1, ord.len() as int).reverse();
                assert(ord.subrange(i as int, ord.len() as int).reverse() =~= tail.push(x));
                assert(tail.push(x).drop_last() =~= tail);
                assert(self@ =~= (ArenaView { garbage: enqueue_one(w1.garbage, x), ..w1 }));
                assert(self@ =~= (ArenaView {
                    garbage: enqueue(v0.garbage, ord.subrange(i as int, ord.len() as int).reverse()),
                    ..v0.detach(members(ord.subrange(i as int, ord.len() as int)))
                }));
                lemma_wf_enqueue_one(w1, x);
            }
        }
        assert(ord.subrange(0, ord.len() as int) =~= ord);
        proof {
            lemma_recycle_removes_all(v0, node_idx);
            if v0.garbage_clean() {
                lemma_recycle_clean(v0, node_idx);
            }
        }
        Ok(())
    }

    /// Remove every child edge of `self[x]`, on both of its ends.
    pub(crate) fn detach_children(&mut self, x: NodeIdx)
        requires
            old(self)@.wf(),
            old(self)@.has(x),
        ensures
            final(self)@.wf(),
            final(self)@ == old(self)@.unparent(set![x]),
    {
        let ghost w0 = self@;
        let cs = self.children_of(x);
        let mut m: usize = 0;
        proof {
            assert(w0.node(x).children.skip(0) =~= w0.node(x).children);
        }
        while m < cs.len()
            invariant
                w0.wf(),
                w0.has(x),
                cs@ == w0.children_of(x),
                0 <= m <= cs@.len(),
                unlinking_down(self@, w0, x, cs@, m as int),
            decreases cs@.len() - m,
        {
            let c = cs[m];
            let ghost cur = self@;
            proof {
                lemma_unlinking_down_edge(cur, w0, x, cs@, m as int);
            }
            match self.rm_edge(x, c) {
                Ok(_) => {},
                Err(e) => {
                    assert(false);
                    return;
                },
            }
            proof {
                lemma_unlinking_down_step(cur, self@, w0, x, cs@, m as int);
            }
            m = m + 1;
        }
        proof {
            lemma_unlinking_down_done(self@, w0, x, cs@);
        }
    }

    /// Traverse the subtree rooted in `self[node_idx]` in pre-order, but
    /// only recycle nodes that have become orphaned (i.e. parentless) by the
    /// time they're visited: such a node loses its child edges and is queued
    /// as garbage, unless it is queued already.  Return an error if
    /// `node_idx` designates no slot.
    pub fn rm_orphan_node(&mut self, node_idx: NodeIdx) -> (r: Result<()>)
        requires
            old(self)@.wf(),
        ensures
            final(self)@.wf(),
            match r {
                Ok(()) => {
                    &&& old(self)@.has(node_idx)
                    &&& final(self)@ == old(self)@.orphan_sweep(old(self)@.preorder(node_idx))
                    &&& old(self)@.node(node_idx).parents.len() > 0 ==> final(self)@ == old(self)@
                },
                Err(e) => {
                    &&& !old(self)@.has(node_idx)
                    &&& e == Error::NodeNotFound(node_idx)
                    &&& final(self)@ == old(self)@
                },
            },
    {
        if node_idx.0 >= self.nodes.len() {
            return Err(Error::NodeNotFound(node_idx));
        }
        let ghost v0 = self@;
        let order = self.dfs(node_idx);
        let ghost ord = order@;
        proof {
            lemma_preorder_in_range(v0, node_idx);
            assert(ord.take(0) =~= Seq::<NodeIdx>::empty());
        }
        let mut i: usize = 0;
        while i < order.len()
            invariant
                v0.wf(),
                v0 == old(self)@,
                ord == order@,
                forall|k: int| 0 <= k < ord.len() ==> v0.has(#[trigger] ord[k]),
                0 <= i <= ord.len(),
                self@.wf(),
                self@.nodes.len() == v0.nodes.len(),
                self@ == v0.orphan_sweep(ord.take(i as int)),
            decreases ord.len() - i,
        {
            let x = order[i];
            assert(v0.has(ord[i as int]));
            proof {
                assert(ord.take(i + 1).drop_last() =~= ord.take(i as int));
                assert(ord.take(i + 1).last() == x);
            }
            if !self.nodes[x.0].has_parents() {
                self.detach_children(x);
                let ghost w1 = self@;
                if !self.is_garbage(x) {
                    self.garbage.push_back(x);
                }
                proof {
                    assert(self@ =~= (ArenaView { garbage: enqueue_one(w1.garbage, x), ..w1 }));
                    lemma_wf_enqueue_one(w1, x);
                }
            }
            i = i + 1;
        }
        assert(ord.take(i as int) =~= ord);
        proof {
            if v0.node(node_idx).parents.len() > 0 {
                lemma_orphan_sweep_of_owned(v0, node_idx);
            }
        }
        Ok(())
    }


    /// Whether `x` is queued as garbage.
    fn is_garbage(&self, x: NodeIdx) -> (r: bool)
        ensures
            r == self@.garbage.contains(x),
    {
        let mut k: usize = 0;
        while k < self.garbage.len()
            invariant
                0 <= k <= self@.garbage.len(),
                forall|j: int| 0 <= j < k ==> self@.garbage[j] != x,
            decreases self@.garbage.len() - k,
        {
            if self.garbage[k] == x {
                return true;
            }
            k = k + 1;
        }
        false
    }

    /// Recycle every node that is not garbage yet, slot by slot, each with
    /// everything below it, as `rm_node` does.  Afterwards every slot is
    /// queued as garbage exactly once.
    pub fn clear(&mut self) -> (r: Result<()>)
        requires
            old(self)@.wf(),
        ensures
            final(self)@.wf(),
            r is Ok,
            final(self)@ == old(self)@.rm_sweep(old(self)@.live_slots()),
            final(self)@.nodes.len() == old(self)@.nodes.len(),
            forall|y: NodeIdx| final(self)@.has(y) ==> #[trigger] final(self)@.garbage.contains(y),
            final(self)@.garbage.len() == final(self)@.nodes.len(),
            old(self)@.garbage_clean() ==> final(self)@.garbage_clean(),
    {
        let ghost v0 = self@;
        let ghost all = Seq::new(v0.nodes.len(), |i: int| NodeIdx(i as usize));
        let ghost pred = |x: NodeIdx| !v0.garbage.contains(x);
        let mut live: Vec<NodeIdx> = Vec::new();
        let mut i: usize = 0;
        while i < self.nodes.len()
            invariant
                v0 == self@,
                v0.wf(),
                all == Seq::new(v0.nodes.len(), |i: int| NodeIdx(i as usize)),
                pred == |x: NodeIdx| !v0.garbage.contains(x),
                0 <= i <= v0.nodes.len(),
                live@ == all.take(i as int).filter(pred),
                forall|k: int| 0 <= k < live@.len() ==> (#[trigger] live@[k]).id() < i,
            decreases v0.nodes.len() - i,
        {
            let idx = self.nodes[i].idx;
            assert(v0.nodes[i as int].idx == NodeIdx(i as usize));
            proof {
                assert(all.take(i + 1) =~= all.take(i as int).push(all[i as int]));
                all.take(i as int).lemma_filter_push(all[i as int], pred);
            }
            if !self.is_garbage(idx) {
                live.push(idx);
            }
            i = i + 1;
        }
        proof {
            assert(all.take(i as int) =~= all);
            assert(live@ == v0.live_slots());
            assert(v0.rm_sweep(live@.take(0)) == v0) by {
                assert(live@.take(0) =~= Seq::<NodeIdx>::empty());
            }
        }
        let mut j: usize = 0;
        while j < live.len()
            invariant
                v0 == old(self)@,
                v0.wf(),
                live@ == v0.live_slots(),
                forall|k: int| 0 <= k < live@.len() ==> v0.has(#[trigger] live@[k]),
                0 <= j <= live@.len(),
                self@.wf(),
                self@.nodes.len() == v0.nodes.len(),
                self@ == v0.rm_sweep(live@.take(j as int)),
                v0.garbage_clean() ==> self@.garbage_clean(),
            decreases live@.len() - j,
        {
            let x = live[j];
            assert(v0.has(live@[j as int]));
            let ghost w = self@;
            match self.rm_node(x) {
                Ok(()) => {},
                Err(e) => {
                    assert(false);
                    return Err(e);
                },
            }
            proof {
                assert(live@.take(j + 1).drop_last() =~= live@.take(j as int));
                assert(live@.take(j + 1).last() == x);
            }
            j = j + 1;
        }
        assert(live@.take(j as int) =~= live@);
        proof {
            lemma_clear_all_garbage(v0);
            lemma_full_garbage(self@);
        }
        Ok(())
    }

    /// The depth-first traversal events below (and including)
    /// `self[start_idx]`: each node is entered (`Pre`), returned to between
    /// each two of its children (`Interspersed`) and left (`Post`).
    pub fn dfs_base(&self, start_idx: NodeIdx) -> (r: Vec<(TraversalType, NodeIdx)>)
        requires
            self@.wf(),
            self@.has(start_idx),
        ensures
            r@ == self@.events_from(start_idx, self@.nodes.len()),
    {
        let ghost v = self@;
        let ghost goal = v.events_from(start_idx, v.nodes.len());
        let n = self.nodes.len();
        let mut out: Vec<(TraversalType, NodeIdx)> = Vec::new();
        let mut stack: Vec<(NodeIdx, usize, usize)> = Vec::new();
        out.push((TraversalType::Pre, start_idx));
        stack.push((start_idx, 0, n));
        proof {
            assert(stack@.drop_last() =~= Seq::<(NodeIdx, usize, usize)>::empty());
            assert(v.events_pending(stack@.drop_last()) =~= Seq::<(TraversalType, NodeIdx)>::empty());
            assert(out@ + v.events_pending(stack@) =~= goal);
            lemma_frames_left_nonneg(v, stack@);
        }
        loop
            invariant
                v == self@,
                v.wf(),
                frames_ok(v, stack@),
                out@ + v.events_pending(stack@) == goal,
                v.frames_left(stack@) >= 0,
            ensures
                out@ == goal,
            decreases v.events_pending(stack@).len(), v.frames_left(stack@),
        {
            let ghost st0 = stack@;
            let ghost o0 = out@;
            match stack.pop() {
                None => {
                    assert(out@ =~= goal);
                    break;
                },
                Some(frame) => {
                    let (x, k, f) = frame;
                    let ghost rest = stack@;
                    assert(rest =~= st0.drop_last());
                    assert(frame_ok(v, st0[st0.len() - 1]));
                    let node = &self.nodes[x.0];
                    assert(node@ == v.node(x));
                    let ghost cs = v.children_of(x);
                    if k < node.children.len() {
                        let c = node.children[k].0;
                        assert(c == cs[k as int]);
                        assert(v.has(v.node(x).children[k as int].0));
                        if k > 0 {
                            out.push((TraversalType::Interspersed, x));
                        }
                        stack.push((x, k + 1, f));
                        let ghost st1 = stack@;
                        if f - 1 > 0 {
                            out.push((TraversalType::Pre, c));
                            stack.push((c, 0, f - 1));
                        }
                        proof {
                            assert(st1.drop_last() =~= rest);
                            if f - 1 > 0 {
                                assert(stack@.drop_last() =~= st1);
                            }
                            lemma_events_step(v, st0, x, k, f);
                            assert(out@ + v.events_pending(stack@) =~= goal);
                            assert forall|j: int| 0 <= j < stack@.len() implies frame_ok(v, #[trigger] stack@[j]) by {
                                if j < rest.len() {
                                    assert(stack@[j] == st0[j]);
                                } else if j == rest.len() {
                                    assert(stack@[j] == (x, (k + 1) as usize, f));
                                    assert(st0[st0.len() - 1] == (x, k, f));
                                } else {
                                    assert(stack@[j] == (c, 0usize, (f - 1) as usize));
                                }
                            }
                            lemma_frames_left_nonneg(v, stack@);
                            if f - 1 == 0 {
                                assert(v.frames_left(stack@) == v.frames_left(rest) + (cs.len() - (k + 1)));
                                assert(v.frames_left(st0) == v.frames_left(rest) + (cs.len() - k));
                            }
                        }
                    } else {
                        out.push((TraversalType::Post, x));
                        proof {
                            assert(v.events_after(x, k as nat, (f - 1) as nat) =~= Seq::<(TraversalType, NodeIdx)>::empty());
                            assert(out@ + v.events_pending(stack@) =~= goal);
                            assert forall|j: int| 0 <= j < stack@.len() implies frame_ok(v, #[trigger] stack@[j]) by {
                                assert(stack@[j] == st0[j]);
                            }
                            lemma_frames_left_nonneg(v, stack@);
                        }
                    }
                },
            }
        }
        out
    }

    /// The nodes below (and including) `self[start_idx]` in post-order:
    /// the children of a node, left to right, before the node itself.
    pub fn dfs_post(&self, start_idx: NodeIdx) -> (r: Vec<NodeIdx>)
        requires
            self@.wf(),
            self@.has(start_idx),
        ensures
            r@ == self@.post_from(start_idx, self@.nodes.len()),
    {
        let events = self.dfs_base(start_idx);
        let ghost es = events@;
        let mut r: Vec<NodeIdx> = Vec::new();
        let mut i: usize = 0;
        while i < events.len()
            invariant
                es == events@,
                0 <= i <= es.len(),
                r@ == visits(es.take(i as int), TraversalType::Post),
            decreases es.len() - i,
        {
            let (t, x) = events[i];
            proof {
                assert(es.take(i + 1) =~= es.take(i as int) + seq![es[i as int]]);
                lemma_visits_concat(es.take(i as int), seq![es[i as int]], TraversalType::Post);
                lemma_visits_single(es[i as int], TraversalType::Post);
            }
            if t == TraversalType::Post {
                r.push(x);
            }
            proof {
                assert(r@ =~= visits(es.take(i + 1), TraversalType::Post));
            }
            i = i + 1;
        }
        proof {
            assert(es.take(i as int) =~= es);
            lemma_post_events(self@, start_idx, self@.nodes.len());
        }
        r
    }

    /// The nodes below (and including) `self[start_idx]` in pre-order.
    pub fn dfs_pre(&self, start_idx: NodeIdx) -> (r: Vec<NodeIdx>)
        requires
            self@.wf(),
            self@.has(start_idx),
        ensures
            r@ == self@.preorder(start_idx),
    {
        self.dfs(start_idx)
    }

    /// Walk the pre-order below `sroots[i]` in `self` and below `oroots[i]`
    /// in `other` in lockstep, for each `i` in turn, and tell whether every
    /// visited pair of nodes agrees: both have no parent, or both have one
    /// and the first was paired with the second; both have as many children;
    /// their data are equal.
    pub fn walk_eq(&self, other: &Self, sroots: &Vec<NodeIdx>, oroots: &Vec<NodeIdx>) -> (r: bool) where
        D: PartialEq,

        requires
            self@.wf(),
            other@.wf(),
            sroots@.len() == oroots@.len(),
            forall|k: int| 0 <= k < sroots@.len() ==> self@.has(#[trigger] sroots@[k]),
            forall|k: int| 0 <= k < oroots@.len() ==> other@.has(#[trigger] oroots@[k]),
            walk_total_until(self@, other@, paired_walks(self@, other@, sroots@, oroots@)),
        ensures
            <D as PartialEqSpec>::obeys_eq_spec() ==> r == walk_agrees(
                self@,
                other@,
                paired_walks(self@, other@, sroots@, oroots@),
            ),
    {
        let ghost sv = self@;
        let ghost ov = other@;
        let ghost all = paired_walks(sv, ov, sroots@, oroots@);
        let mut map: Vec<Option<NodeIdx>> = Vec::new();
        while map.len() < self.nodes.len()
            invariant
                map@.len() <= sv.nodes.len(),
                sv == self@,
                forall|i: int| 0 <= i < map@.len() ==> map@[i] is None,
            decreases sv.nodes.len() - map@.len(),
        {
            map.push(None);
        }
        proof {
            assert(sroots@.take(0) =~= Seq::<NodeIdx>::empty());
            assert(paired_walks(sv, ov, sroots@.take(0), oroots@) =~= Seq::<(NodeIdx, NodeIdx)>::empty());
        }
        let mut i: usize = 0;
        while i < sroots.len()
            invariant
                sv == self@,
                ov == other@,
                sv.wf(),
                ov.wf(),
                sroots@.len() == oroots@.len(),
                forall|k: int| 0 <= k < sroots@.len() ==> sv.has(#[trigger] sroots@[k]),
                forall|k: int| 0 <= k < oroots@.len() ==> ov.has(#[trigger] oroots@[k]),
                all == paired_walks(sv, ov, sroots@, oroots@),
                walk_total_until(sv, ov, all),
                walk_shapes_agree(sv, ov, paired_walks(sv, ov, sroots@.take(i as int), oroots@)),
                0 <= i <= sroots@.len(),
                map@.len() == sv.nodes.len(),
                map_matches(map@, pair_map(paired_walks(sv, ov, sroots@.take(i as int), oroots@))),
                all.take(paired_walks(sv, ov, sroots@.take(i as int), oroots@).len() as int)
                    == paired_walks(sv, ov, sroots@.take(i as int), oroots@),
                <D as PartialEqSpec>::obeys_eq_spec() ==> walk_agrees(
                    sv,
                    ov,
                    paired_walks(sv, ov, sroots@.take(i as int), oroots@),
                ),
            decreases sroots@.len() - i,
        {
            let sorder = self.dfs(sroots[i]);
            let oorder = other.dfs(oroots[i]);
            proof {
                lemma_preorder_in_range(sv, sroots@[i as int]);
                lemma_preorder_in_range(ov, oroots@[i as int]);
                lemma_paired_walks_step(sv, ov, sroots@, oroots@, i as int);
            }
            let ghost base = paired_walks(sv, ov, sroots@.take(i as int), oroots@);
            let ghost z = zip_idxs(sorder@, oorder@);
            let n = if sorder.len() <= oorder.len() {
                sorder.len()
            } else {
                oorder.len()
            };
            let mut j: usize = 0;
            assert(base + z.take(0) =~= base);
            while j < n
                invariant
                    sv == self@,
                    ov == other@,
                    sv.wf(),
                    ov.wf(),
                    z == zip_idxs(sorder@, oorder@),
                    n == z.len(),
                    forall|k: int| 0 <= k < sorder@.len() ==> sv.has(#[trigger] sorder@[k]),
                    forall|k: int| 0 <= k < oorder@.len() ==> ov.has(#[trigger] oorder@[k]),
                    all.take((base + z).len() as int) == base + z,
                    (base + z).len() <= all.len(),
                    all == paired_walks(sv, ov, sroots@, oroots@),
                    walk_total_until(sv, ov, all),
                    walk_shapes_agree(sv, ov, base + z.take(j as int)),
                    0 <= j <= n,
                    map@.len() == sv.nodes.len(),
                    map_matches(map@, pair_map(base + z.take(j as int))),
                    <D as PartialEqSpec>::obeys_eq_spec() ==> walk_agrees(sv, ov, base + z.take(j as int)),
                decreases n - j,
            {
                let s = sorder[j];
                let o = oorder[j];
                assert(z[j as int] == (s, o));
                assert(sv.has(sorder@[j as int]));
                assert(ov.has(oorder@[j as int]));
                let ghost done = base + z.take(j as int);
                let ghost done2 = base + z.take(j + 1);
                proof {
                    assert(done2 =~= done.push((s, o)));
                    assert(done2.drop_last() =~= done);
                    lemma_map_matches_insert(map@, pair_map(done), s, o);
                }
                map.set(s.0, Some(o));
                let sn = self.node(s);
                let on = other.node(o);
                let parents_ok = if sn.parents.len() == 0 && on.parents.len() == 0 {
                    true
                } else if sn.parents.len() == 1 && on.parents.len() == 1 {
                    let sp = sn.parents[0].0;
                    proof {
                        assert(sv.has(sv.nodes[s.id()].parents[0].0));
                        assert(all.take(done2.len() as int) =~= done2) by {
                            assert(all.take((base + z).len() as int).take(done2.len() as int) =~= done2);
                        }
                        assert(all.take(done.len() as int) =~= done) by {
                            assert(all.take((base + z).len() as int).take(done.len() as int) =~= done);
                        }
                        lemma_walk_total_until_at(sv, ov, all, done2.len() - 1);
                        assert(all[done2.len() - 1] == done2[done2.len() - 1]);
                        assert(all[done2.len() - 1] == (s, o));
                        assert(pair_map(done2).contains_key(sp));
                        assert(map@[sp.id()] == Some(pair_map(done2)[sp]));
                    }
                    match map[sp.0] {
                        Some(m) => m == on.parents[0].0,
                        None => {
                            assert(false);
                            false
                        },
                    }
                } else {
                    false
                };
                if !parents_ok || sn.children.len() != on.children.len() || sn.data != on.data {
                    proof {
                        if <D as PartialEqSpec>::obeys_eq_spec() {
                            assert(!nodes_agree(sv, ov, pair_map(done2), s, o));
                            assert(!walk_agrees(sv, ov, done2));
                            let rest = all.subrange(done2.len() as int, all.len() as int);
                            lemma_walk_agrees_stuck(sv, ov, done2, rest);
                            assert(all.take(done2.len() as int) =~= done2) by {
                                assert(all.take((base + z).len() as int).take(done2.len() as int) =~= done2);
                            }
                            assert(done2 + rest =~= all);
                        }
                    }
                    return false;
                }
                proof {
                    if sn@.parents.len() == 1 {
                        let sp = sn@.parents[0].0;
                        assert(map@[sp.id()] == Some(pair_map(done2)[sp]));
                    }
                    assert(shapes_agree(sv, ov, pair_map(done2), s, o));
                    assert(walk_shapes_agree(sv, ov, done2));
                }
                j = j + 1;
            }
            proof {
                assert(z.take(j as int) =~= z);
                assert(sroots@.take(i + 1).drop_last() =~= sroots@.take(i as int));
            }
            i = i + 1;
        }
        proof {
            assert(sroots@.take(i as int) =~= sroots@);
        }
        true
    }
}

/// Whether every entry of `s` points at a slot below `n`.
fn entries_below<T>(s: &Vec<(NodeIdx, T)>, n: usize) -> (r: bool)
    ensures
        r == forall|k: int| 0 <= k < s@.len() ==> (#[trigger] s@[k]).0.id() < n,
{
    let mut k: usize = 0;
    while k < s.len()
        invariant
            0 <= k <= s@.len(),
            forall|j: int| 0 <= j < k ==> (#[trigger] s@[j]).0.id() < n,
        decreases s@.len() - k,
    {
        if s[k].0.0 >= n {
            return false;
        }
        k = k + 1;
    }
    true
}

/// How many entries of `s` point at `x`.
fn count_entries<T>(s: &Vec<(NodeIdx, T)>, x: NodeIdx) -> (r: usize)
    ensures
        r == count_of(s@, x),
{
    let mut r: usize = 0;
    let mut k: usize = 0;
    assert(s@.take(0) =~= Seq::<(NodeIdx, T)>::empty());
    while k < s.len()
        invariant
            0 <= k <= s@.len(),
            r <= k,
            r == count_of(s@.take(k as int), x),
        decreases s@.len() - k,
    {
        proof {
            assert(s@.take(k + 1) =~= s@.take(k as int).push(s@[k as int]));
            lemma_count_push(s@.take(k as int), s@[k as int], x);
        }
        if s[k].0 == x {
            r = r + 1;
        }
        k = k + 1;
    }
    assert(s@.take(k as int) =~= s@);
    r
}

/// The entries of `xs` other than `x`, in their order.
pub(crate) fn without_idx(xs: &Vec<NodeIdx>, x: NodeIdx) -> (r: Vec<NodeIdx>)
    ensures
        r@ == xs@.filter(|y: NodeIdx| y != x),
{
    let mut r: Vec<NodeIdx> = Vec::new();
    let mut i: usize = 0;
    while i < xs.len()
        invariant
            0 <= i <= xs@.len(),
            r@ == xs@.take(i as int).filter(|y: NodeIdx| y != x),
        decreases xs@.len() - i,
    {
        proof {
            assert(xs@.take(i + 1) =~= xs@.take(i as int).push(xs@[i as int]));
            xs@.take(i as int).lemma_filter_push(xs@[i as int], |y: NodeIdx| y != x);
        }
        if xs[i] != x {
            r.push(xs[i]);
        }
        i = i + 1;
    }
    assert(xs@.take(i as int) =~= xs@);
    r
}

/// Queuing an allocated slot as garbage, unless it is queued already, keeps
/// an arena well-formed.
proof fn lemma_wf_enqueue_one<D, P, C>(v: ArenaView<D, P, C>, x: NodeIdx)
    requires
        v.wf(),
        v.has(x),
    ensures
        (ArenaView { garbage: enqueue_one(v.garbage, x), ..v }).wf(),
{
    let w = ArenaView { garbage: enqueue_one(v.garbage, x), ..v };
    lemma_enqueue_one(v.garbage, x);
    assert forall|k: int| 0 <= k < w.garbage.len() implies w.has(#[trigger] w.garbage[k]) by {
        assert(w.garbage.contains(w.garbage[k]));
        if w.garbage[k] != x {
            let m = choose|m: int| 0 <= m < v.garbage.len() && v.garbage[m] == w.garbage[k];
            assert(v.has(v.garbage[m]));
        }
    }
    assert forall|p: int, c: int|
        0 <= p < w.nodes.len() && 0 <= c < w.nodes.len() implies #[trigger] w.balanced(p, c) by {
        assert(v.balanced(p, c));
    }
}

/// Replacing the children of `p` and the parents of `c` keeps an arena
/// well-formed when both lists keep pointing into the arena and the number
/// of `p -> c` entries changes by the same amount on both ends.
proof fn lemma_wf_edit<D, P, C>(
    v: ArenaView<D, P, C>,
    p: NodeIdx,
    c: NodeIdx,
    cs: Seq<(NodeIdx, C)>,
    ps: Seq<(NodeIdx, P)>,
    delta: int,
)
    requires
        v.wf(),
        v.has(p),
        v.has(c),
        forall|k: int| 0 <= k < cs.len() ==> v.has(#[trigger] cs[k].0),
        forall|k: int| 0 <= k < ps.len() ==> v.has(#[trigger] ps[k].0),
        forall|x: NodeIdx|
            #[trigger] count_of(cs, x) == count_of(v.node(p).children, x) + if x == c {
                delta
            } else {
                0
            },
        forall|x: NodeIdx|
            #[trigger] count_of(ps, x) == count_of(v.node(c).parents, x) + if x == p {
                delta
            } else {
                0
            },
    ensures
        v.with_children(p, cs).with_parents(c, ps).wf(),
{
    let w = v.with_children(p, cs).with_parents(c, ps);
    assert forall|i: int| 0 <= i < w.nodes.len() implies (#[trigger] w.nodes[i]).idx == NodeIdx(
        i as usize,
    ) by {
        assert(v.nodes[i].idx == NodeIdx(i as usize));
    }
    assert forall|i: int, k: int|
        0 <= i < w.nodes.len() && 0 <= k < w.nodes[i].children.len() implies w.has(
        #[trigger] w.nodes[i].children[k].0,
    ) by {
        if i != p.id() {
            assert(w.nodes[i].children == v.nodes[i].children);
        }
    }
    assert forall|i: int, k: int|
        0 <= i < w.nodes.len() && 0 <= k < w.nodes[i].parents.len() implies w.has(
        #[trigger] w.nodes[i].parents[k].0,
    ) by {
        if i != c.id() {
            assert(w.nodes[i].parents == v.nodes[i].parents);
        }
    }
    assert forall|k: int| 0 <= k < w.garbage.len() implies w.has(#[trigger] w.garbage[k]) by {
        assert(v.has(v.garbage[k]));
    }
    assert forall|a: int, b: int|
        0 <= a < w.nodes.len() && 0 <= b < w.nodes.len() implies #[trigger] w.balanced(a, b) by {
        assert(v.balanced(a, b));
        let xa = NodeIdx(a as usize);
        let xb = NodeIdx(b as usize);
        if a == p.id() {
            assert(w.nodes[a].children == cs);
            assert(count_of(cs, xb) == count_of(v.node(p).children, xb) + if xb == c {
                delta
            } else {
                0
            });
        } else {
            assert(w.nodes[a].children == v.nodes[a].children);
        }
        if b == c.id() {
            assert(w.nodes[b].parents == ps);
            assert(count_of(ps, xa) == count_of(v.node(c).parents, xa) + if xa == p {
                delta
            } else {
                0
            });
        } else {
            assert(w.nodes[b].parents == v.nodes[b].parents);
        }
    }
}

/// Every entry of `s.remove(i)` is an entry of `s`.
proof fn lemma_remove_in_range<D, P, C, T>(v: ArenaView<D, P, C>, s: Seq<(NodeIdx, T)>, i: int)
    requires
        0 <= i < s.len(),
        forall|k: int| 0 <= k < s.len() ==> v.has(#[trigger] s[k].0),
    ensures
        forall|k: int| 0 <= k < s.remove(i).len() ==> v.has(#[trigger] s.remove(i)[k].0),
{
    assert forall|k: int| 0 <= k < s.remove(i).len() implies v.has(#[trigger] s.remove(i)[k].0) by {
        if k < i {
            assert(s.remove(i)[k] == s[k]);
        } else {
            assert(s.remove(i)[k] == s[k + 1]);
        }
    }
}

/// Every entry of `s.insert(i, e)` is an entry of `s` or `e`.
proof fn lemma_insert_in_range<D, P, C, T>(
    v: ArenaView<D, P, C>,
    s: Seq<(NodeIdx, T)>,
    i: int,
    e: (NodeIdx, T),
)
    requires
        0 <= i <= s.len(),
        v.has(e.0),
        forall|k: int| 0 <= k < s.len() ==> v.has(#[trigger] s[k].0),
    ensures
        forall|k: int| 0 <= k < s.insert(i, e).len() ==> v.has(#[trigger] s.insert(i, e)[k].0),
{
    assert forall|k: int| 0 <= k < s.insert(i, e).len() implies v.has(
        #[trigger] s.insert(i, e)[k].0,
    ) by {
        if k < i {
            assert(s.insert(i, e)[k] == s[k]);
        } else if k > i {
            assert(s.insert(i, e)[k] == s[k - 1]);
        }
    }
}

/// Linking two allocated nodes keeps an arena well-formed.
pub proof fn lemma_wf_link<D, P, C>(v: ArenaView<D, P, C>, p: NodeIdx, c: NodeIdx, pdata: P, cdata: C)
    requires
        v.wf(),
        v.has(p),
        v.has(c),
    ensures
        v.link(p, c, pdata, cdata).wf(),
{
    let cs = v.node(p).children.push((c, cdata));
    let v1 = v.with_children(p, cs);
    let ps = v1.node(c).parents.push((p, pdata));
    assert(v1.node(c).parents == v.node(c).parents);
    assert forall|x: NodeIdx| #[trigger] count_of(cs, x) == count_of(v.node(p).children, x) + if x == c {
        1int
    } else {
        0
    } by {
        lemma_count_push(v.node(p).children, (c, cdata), x);
    }
    assert forall|x: NodeIdx| #[trigger] count_of(ps, x) == count_of(v.node(c).parents, x) + if x == p {
        1int
    } else {
        0
    } by {
        lemma_count_push(v.node(c).parents, (p, pdata), x);
    }
    assert forall|k: int| 0 <= k < cs.len() implies v.has(#[trigger] cs[k].0) by {
        if k < v.node(p).children.len() {
            assert(cs[k] == v.node(p).children[k]);
        }
    }
    assert forall|k: int| 0 <= k < ps.len() implies v.has(#[trigger] ps[k].0) by {
        if k < v.node(c).parents.len() {
            assert(ps[k] == v.node(c).parents[k]);
        }
    }
    lemma_wf_edit(v, p, c, cs, ps, 1);
}

/// Unlinking an existing edge keeps an arena well-formed, and its parent
/// end is found on the child.
pub proof fn lemma_wf_unlink<D, P, C>(v: ArenaView<D, P, C>, p: NodeIdx, c: NodeIdx)
    requires
        v.wf(),
        v.has(p),
        v.has(c),
        v.has_edge(p, c),
    ensures
        v.unlink(p, c).wf(),
        first_index(v.node(p).children, c) >= 0,
        first_index(v.node(c).parents, p) >= 0,
        v.unlink(p, c) == v.with_children(p, remove_first(v.node(p).children, c)).with_parents(
            c,
            remove_first(v.node(c).parents, p),
        ),
{
    let cs = remove_first(v.node(p).children, c);
    let v1 = v.with_children(p, cs);
    let ps = remove_first(v1.node(c).parents, p);
    assert(v1.node(c).parents == v.node(c).parents);
    assert(v.balanced(p.id(), c.id()));
    lemma_first_index_bounds(v.node(p).children, c);
    lemma_first_index_bounds(v.node(c).parents, p);
    assert forall|x: NodeIdx| #[trigger] count_of(cs, x) == count_of(v.node(p).children, x) + if x == c {
        -1int
    } else {
        0
    } by {
        lemma_remove_first_count(v.node(p).children, c, x);
    }
    assert forall|x: NodeIdx| #[trigger] count_of(ps, x) == count_of(v.node(c).parents, x) + if x == p {
        -1int
    } else {
        0
    } by {
        lemma_remove_first_count(v.node(c).parents, p, x);
    }
    assert(forall|k: int| 0 <= k < v.node(p).children.len() ==> v.has(#[trigger] v.node(p).children[k].0));
    assert(forall|k: int| 0 <= k < v.node(c).parents.len() ==> v.has(#[trigger] v.node(c).parents[k].0));
    lemma_remove_in_range(v, v.node(p).children, first_index(v.node(p).children, c));
    lemma_remove_in_range(v, v.node(c).parents, first_index(v.node(c).parents, p));
    lemma_wf_edit(v, p, c, cs, ps, -1);
}

/// Inserting an edge between two allocated nodes keeps an arena
/// well-formed.
pub proof fn lemma_wf_link_at<D, P, C>(
    v: ArenaView<D, P, C>,
    p: NodeIdx,
    c: NodeIdx,
    pdata: P,
    cdata: C,
    ppos: Option<usize>,
    cpos: Option<usize>,
)
    requires
        v.wf(),
        v.has(p),
        v.has(c),
        cpos matches Some(i) ==> i <= v.node(p).children.len(),
        ppos matches Some(i) ==> i <= v.node(c).parents.len(),
    ensures
        v.link_at(p, c, pdata, cdata, ppos, cpos).wf(),
{
    let cs = match cpos {
        Some(i) => v.node(p).children.insert(i as int, (c, cdata)),
        None => v.node(p).children.push((c, cdata)),
    };
    let v1 = v.with_children(p, cs);
    assert(v1.node(c).parents == v.node(c).parents);
    let ps = match ppos {
        Some(i) => v1.node(c).parents.insert(i as int, (p, pdata)),
        None => v1.node(c).parents.push((p, pdata)),
    };
    assert(forall|k: int| 0 <= k < v.node(p).children.len() ==> v.has(#[trigger] v.node(p).children[k].0));
    assert(forall|k: int| 0 <= k < v.node(c).parents.len() ==> v.has(#[trigger] v.node(c).parents[k].0));
    assert forall|x: NodeIdx| #[trigger] count_of(cs, x) == count_of(v.node(p).children, x) + if x == c {
        1int
    } else {
        0
    } by {
        match cpos {
            Some(i) => lemma_count_insert(v.node(p).children, i as int, (c, cdata), x),
            None => lemma_count_push(v.node(p).children, (c, cdata), x),
        }
    }
    assert forall|x: NodeIdx| #[trigger] count_of(ps, x) == count_of(v.node(c).parents, x) + if x == p {
        1int
    } else {
        0
    } by {
        match ppos {
            Some(i) => lemma_count_insert(v.node(c).parents, i as int, (p, pdata), x),
            None => lemma_count_push(v.node(c).parents, (p, pdata), x),
        }
    }
    match cpos {
        Some(i) => lemma_insert_in_range(v, v.node(p).children, i as int, (c, cdata)),
        None => lemma_insert_in_range(
            v,
            v.node(p).children,
            v.node(p).children.len() as int,
            (c, cdata),
        ),
    }
    match ppos {
        Some(i) => lemma_insert_in_range(v, v.node(c).parents, i as int, (p, pdata)),
        None => lemma_insert_in_range(
            v,
            v.node(c).parents,
            v.node(c).parents.len() as int,
            (p, pdata),
        ),
    }
    assert(v.node(p).children.push((c, cdata)) =~= v.node(p).children.insert(
        v.node(p).children.len() as int,
        (c, cdata),
    ));
    assert(v.node(c).parents.push((p, pdata)) =~= v.node(c).parents.insert(
        v.node(c).parents.len() as int,
        (p, pdata),
    ));
    lemma_wf_edit(v, p, c, cs, ps, 1);
}

/// Once unlinking is stuck on a missing edge, later pairs change nothing.
pub proof fn lemma_unlink_pairs_stuck<D, P, C>(
    v: ArenaView<D, P, C>,
    a: Seq<(NodeIdx, NodeIdx)>,
    b: Seq<(NodeIdx, NodeIdx)>,
)
    requires
        v.unlink_pairs(a).1 is Some,
    ensures
        v.unlink_pairs(a + b) == v.unlink_pairs(a),
    decreases b.len(),
{
    if b.len() == 0 {
        assert(a + b =~= a);
    } else {
        lemma_unlink_pairs_stuck(v, a, b.drop_last());
        assert((a + b).drop_last() =~= a + b.drop_last());
    }
}

/// The pairs of `grid(ps, cs)` up to parent `i`, child `j` are a prefix of it.
pub proof fn lemma_grid_split(ps: Seq<NodeIdx>, cs: Seq<NodeIdx>, i: int, j: int)
    requires
        0 <= i < ps.len(),
        0 <= j <= cs.len(),
    ensures
        ({
            let done = grid(ps.take(i), cs) + cs.take(j).map_values(|c: NodeIdx| (ps[i], c));
            &&& done.len() <= grid(ps, cs).len()
            &&& grid(ps, cs) == done + grid(ps, cs).subrange(done.len() as int, grid(ps, cs).len() as int)
        }),
    decreases ps.len(),
{
    let done = grid(ps.take(i), cs) + cs.take(j).map_values(|c: NodeIdx| (ps[i], c));
    if i == ps.len() - 1 {
        assert(ps.drop_last() =~= ps.take(i));
        let row = cs.map_values(|c: NodeIdx| (ps.last(), c));
        assert(cs.take(j).map_values(|c: NodeIdx| (ps[i], c)) =~= row.take(j));
        assert(grid(ps, cs) == grid(ps.take(i), cs) + row);
        assert(grid(ps, cs) =~= done + grid(ps, cs).subrange(done.len() as int, grid(ps, cs).len() as int));
    } else {
        lemma_grid_split(ps.drop_last(), cs, i, j);
        assert(ps.drop_last().take(i) =~= ps.take(i));
        assert(ps.drop_last()[i] == ps[i]);
        let g = grid(ps.drop_last(), cs);
        assert(grid(ps, cs) == g + cs.map_values(|c: NodeIdx| (ps.last(), c)));
        assert(grid(ps, cs) =~= done + grid(ps, cs).subrange(done.len() as int, grid(ps, cs).len() as int));
    }
}

/// `map` records, slot by slot, the correspondence `m`.
pub open spec fn map_matches(map: Seq<Option<NodeIdx>>, m: Map<NodeIdx, NodeIdx>) -> bool {
    &&& map.len() <= usize::MAX
    &&& forall|i: int|
        0 <= i < map.len() ==> (#[trigger] map[i] matches Some(d) ==> m.contains_key(NodeIdx(i as usize))
            && m[NodeIdx(i as usize)] == d)
    &&& forall|y: NodeIdx| #[trigger] m.contains_key(y) ==> y.id() < map.len() && map[y.id()] == Some(m[y])
}

pub(crate) proof fn lemma_map_matches_insert(map: Seq<Option<NodeIdx>>, m: Map<NodeIdx, NodeIdx>, s: NodeIdx, o: NodeIdx)
    requires
        map_matches(map, m),
        s.id() < map.len(),
    ensures
        map_matches(map.update(s.id(), Some(o)), m.insert(s, o)),
{
    let map2 = map.update(s.id(), Some(o));
    let m2 = m.insert(s, o);
    assert forall|i: int| 0 <= i < map2.len() implies (#[trigger] map2[i] matches Some(d) ==> m2.contains_key(
        NodeIdx(i as usize),
    ) && m2[NodeIdx(i as usize)] == d) by {
        if i == s.id() {
            assert(NodeIdx(i as usize) == s);
        } else {
            assert(map2[i] == map[i]);
            assert(NodeIdx(i as usize) != s);
        }
    }
    assert forall|y: NodeIdx| #[trigger] m2.contains_key(y) implies y.id() < map2.len() && map2[y.id()] == Some(m2[y]) by {
        if y != s {
            assert(m.contains_key(y));
        }
    }
}

pub(crate) proof fn lemma_walk_total_until_at<D, P, C>(
    sv: ArenaView<D, P, C>,
    ov: ArenaView<D, P, C>,
    all: Seq<(NodeIdx, NodeIdx)>,
    k: int,
)
    requires
        walk_total_until(sv, ov, all),
        0 <= k < all.len(),
        walk_shapes_agree(sv, ov, all.take(k)),
    ensures
        sv.node(all[k].0).parents.len() == 1 && ov.node(all[k].1).parents.len() == 1 ==> pair_map(
            all.take(k + 1),
        ).contains_key(sv.node(all[k].0).parents[0].0),
{
    assert(all[k] == all[k]);
}

/// A walk that agrees at every pair has the same shapes at every pair.
pub proof fn lemma_agrees_has_shapes<D: PartialEq, P, C>(
    sv: ArenaView<D, P, C>,
    ov: ArenaView<D, P, C>,
    pairs: Seq<(NodeIdx, NodeIdx)>,
)
    requires
        walk_agrees(sv, ov, pairs),
    ensures
        walk_shapes_agree(sv, ov, pairs),
    decreases pairs.len(),
{
    if pairs.len() > 0 {
        lemma_agrees_has_shapes(sv, ov, pairs.drop_last());
    }
}

/// A walk along which the correspondence can always be consulted can be
/// consulted wherever a comparison consults it.
pub proof fn lemma_walk_total_until<D, P, C>(
    sv: ArenaView<D, P, C>,
    ov: ArenaView<D, P, C>,
    pairs: Seq<(NodeIdx, NodeIdx)>,
)
    requires
        walk_total(sv, ov, pairs),
    ensures
        walk_total_until(sv, ov, pairs),
{
}

proof fn lemma_walk_agrees_stuck<D: PartialEq, P, C>(
    sv: ArenaView<D, P, C>,
    ov: ArenaView<D, P, C>,
    a: Seq<(NodeIdx, NodeIdx)>,
    b: Seq<(NodeIdx, NodeIdx)>,
)
    requires
        !walk_agrees(sv, ov, a),
    ensures
        !walk_agrees(sv, ov, a + b),
    decreases b.len(),
{
    if b.len() == 0 {
        assert(a + b =~= a);
    } else {
        lemma_walk_agrees_stuck(sv, ov, a, b.drop_last());
        assert((a + b).drop_last() =~= a + b.drop_last());
    }
}

/// Walking an arena in lockstep with itself, below the same roots, pairs
/// every node with itself.
proof fn lemma_paired_walks_diag<D, P, C>(v: ArenaView<D, P, C>, sr: Seq<NodeIdx>, or: Seq<NodeIdx>)
    requires
        v.linked(),
        sr.len() <= or.len(),
        forall|i: int| 0 <= i < sr.len() ==> sr[i] == or[i] && v.has(sr[i]),
    ensures
        forall|k: int|
            0 <= k < paired_walks(v, v, sr, or).len() ==> (#[trigger] paired_walks(v, v, sr, or)[k]).0
                == paired_walks(v, v, sr, or)[k].1 && v.has(paired_walks(v, v, sr, or)[k].0),
    decreases sr.len(),
{
    if sr.len() > 0 {
        let t = sr.drop_last();
        assert forall|i: int| 0 <= i < t.len() implies t[i] == or[i] && v.has(t[i]) by {
            assert(t[i] == sr[i]);
        }
        lemma_paired_walks_diag(v, t, or);
        let a = paired_walks(v, v, t, or);
        let x = sr[sr.len() - 1];
        let z = zip_idxs(v.preorder(sr.last()), v.preorder(or[sr.len() - 1]));
        assert(sr.last() == or[sr.len() - 1]);
        lemma_preorder_in_range(v, x);
        assert forall|k: int| 0 <= k < (a + z).len() implies (#[trigger] (a + z)[k]).0 == (a + z)[k].1 && v.has(
            (a + z)[k].0,
        ) by {
            if k >= a.len() {
                assert((a + z)[k] == z[k - a.len()]);
                assert(v.has(v.preorder(x)[k - a.len()]));
            } else {
                assert((a + z)[k] == a[k]);
            }
        }
    }
}

/// The correspondence built by a walk that pairs every node with itself
/// maps every node it knows to itself.
proof fn lemma_pair_map_diag(pairs: Seq<(NodeIdx, NodeIdx)>)
    requires
        forall|k: int| 0 <= k < pairs.len() ==> (#[trigger] pairs[k]).0 == pairs[k].1,
    ensures
        forall|x: NodeIdx| #[trigger] pair_map(pairs).contains_key(x) ==> pair_map(pairs)[x] == x,
    decreases pairs.len(),
{
    if pairs.len() > 0 {
        let t = pairs.drop_last();
        assert forall|k: int| 0 <= k < t.len() implies (#[trigger] t[k]).0 == t[k].1 by {
            assert(t[k] == pairs[k]);
        }
        lemma_pair_map_diag(t);
        let e = pairs[pairs.len() - 1];
        assert(pairs.last() == e);
        assert forall|x: NodeIdx| #[trigger] pair_map(pairs).contains_key(x) implies pair_map(pairs)[x] == x by {
            if x != e.0 {
                assert(pair_map(t).contains_key(x));
            }
        }
    }
}

/// A walk that pairs every node of an arena with itself agrees at every
/// pair, when equality of data is reflexive and the walk can consult its
/// correspondence at every parent.
proof fn lemma_walk_agrees_diag<D: PartialEq, P, C>(v: ArenaView<D, P, C>, pairs: Seq<(NodeIdx, NodeIdx)>)
    requires
        forall|d: D| #[trigger] d.eq_spec(&d),
        forall|k: int|
            0 <= k < pairs.len() ==> (#[trigger] pairs[k]).0 == pairs[k].1 && v.node(pairs[k].0).parents.len()
                <= 1,
        walk_total(v, v, pairs),
    ensures
        walk_agrees(v, v, pairs),
    decreases pairs.len(),
{
    if pairs.len() > 0 {
        let t = pairs.drop_last();
        let n = pairs.len() - 1;
        assert forall|k: int| 0 <= k < t.len() implies (#[trigger] t[k]).0 == t[k].1 && v.node(t[k].0).parents.len()
            <= 1 by {
            assert(t[k] == pairs[k]);
        }
        assert forall|k: int| #![trigger t[k]] 0 <= k < t.len() implies (v.node(t[k].0).parents.len() == 1
            && v.node(t[k].1).parents.len() == 1 ==> pair_map(t.take(k + 1)).contains_key(
            v.node(t[k].0).parents[0].0,
        )) by {
            assert(t.take(k + 1) =~= pairs.take(k + 1));
            assert(t[k] == pairs[k]);
        }
        lemma_walk_agrees_diag(v, t);
        let x = pairs.last().0;
        assert(pairs[n] == pairs.last());
        assert(pairs.take(n + 1) =~= pairs);
        lemma_pair_map_diag(pairs);
        assert(v.node(x).data.eq_spec(&v.node(x).data));
        assert(pairs[n].0 == pairs[n].1);
        let sp = v.node(x).parents;
        if sp.len() == 1 {
            assert(pair_map(pairs.take(n + 1)).contains_key(v.node(pairs[n].0).parents[0].0));
            assert(pair_map(pairs).contains_key(sp[0].0));
            assert(pair_map(pairs)[sp[0].0] == sp[0].0);
        }
        assert(nodes_agree(v, v, pair_map(pairs), x, pairs.last().1));
    }
}

/// Walking an arena in lockstep with itself below the same roots agrees at
/// every pair, when equality of data is reflexive, no node has two parents
/// or more, and the walk can consult its correspondence at every parent.
pub proof fn lemma_walk_agrees_self<D: PartialEq, P, C>(v: ArenaView<D, P, C>, roots: Seq<NodeIdx>)
    requires
        v.wf(),
        forall|k: int| 0 <= k < roots.len() ==> v.has(#[trigger] roots[k]),
        forall|x: NodeIdx| v.has(x) ==> #[trigger] v.node(x).parents.len() <= 1,
        forall|d: D| #[trigger] d.eq_spec(&d),
        walk_total(v, v, paired_walks(v, v, roots, roots)),
    ensures
        walk_agrees(v, v, paired_walks(v, v, roots, roots)),
{
    assert(v.linked());
    lemma_paired_walks_diag(v, roots, roots);
    let pw = paired_walks(v, v, roots, roots);
    assert forall|k: int| 0 <= k < pw.len() implies (#[trigger] pw[k]).0 == pw[k].1 && v.node(pw[k].0).parents.len()
        <= 1 by {
        assert(v.has(pw[k].0));
    }
    lemma_walk_agrees_diag(v, pw);
}

/// The pre-order below `x` depends on the nodes alone, not on the garbage
/// queue.
proof fn lemma_dfs_same_nodes<D, P, C>(a: ArenaView<D, P, C>, a2: ArenaView<D, P, C>, x: NodeIdx, fuel: nat)
    requires
        a2.nodes == a.nodes,
    ensures
        a2.dfs_from(x, fuel) == a.dfs_from(x, fuel),
    decreases fuel, 0nat,
{
    if fuel > 0 {
        lemma_dfs_list_same_nodes(a, a2, a.children_of(x), (fuel - 1) as nat);
    }
}

/// The pre-orders below the nodes of `xs` depend on the nodes alone, not
/// on the garbage queue.
proof fn lemma_dfs_list_same_nodes<D, P, C>(a: ArenaView<D, P, C>, a2: ArenaView<D, P, C>, xs: Seq<NodeIdx>, fuel: nat)
    requires
        a2.nodes == a.nodes,
    ensures
        a2.dfs_list(xs, fuel) == a.dfs_list(xs, fuel),
    decreases fuel, xs.len(),
{
    if xs.len() > 0 {
        lemma_dfs_same_nodes(a, a2, xs[0], fuel);
        lemma_dfs_list_same_nodes(a, a2, xs.drop_first(), fuel);
    }
}

/// The lockstep walks depend on the nodes alone, not on the garbage queue.
pub(crate) proof fn lemma_paired_walks_same_nodes<D, P, C>(
    a: ArenaView<D, P, C>,
    a2: ArenaView<D, P, C>,
    b: ArenaView<D, P, C>,
    sr: Seq<NodeIdx>,
    or: Seq<NodeIdx>,
)
    requires
        a2.nodes == a.nodes,
    ensures
        paired_walks(a2, b, sr, or) == paired_walks(a, b, sr, or),
    decreases sr.len(),
{
    if sr.len() > 0 {
        lemma_paired_walks_same_nodes(a, a2, b, sr.drop_last(), or);
        lemma_dfs_same_nodes(a, a2, sr.last(), a.nodes.len());
    }
}

/// Whether a walk agrees depends on the nodes alone, not on the garbage
/// queue.
pub(crate) proof fn lemma_walk_agrees_same_nodes<D: PartialEq, P, C>(
    a: ArenaView<D, P, C>,
    a2: ArenaView<D, P, C>,
    b: ArenaView<D, P, C>,
    pairs: Seq<(NodeIdx, NodeIdx)>,
)
    requires
        a2.nodes == a.nodes,
    ensures
        walk_agrees(a2, b, pairs) == walk_agrees(a, b, pairs),
    decreases pairs.len(),
{
    if pairs.len() > 0 {
        lemma_walk_agrees_same_nodes(a, a2, b, pairs.drop_last());
    }
}

/// How many times `e` occurs in `pairs`.
pub open spec fn pair_count(pairs: Seq<(NodeIdx, NodeIdx)>, e: (NodeIdx, NodeIdx)) -> nat
    decreases pairs.len(),
{
    if pairs.len() == 0 {
        0
    } else {
        pair_count(pairs.drop_last(), e) + if pairs.last() == e {
            1nat
        } else {
            0nat
        }
    }
}

/// When `rm_edges` succeeds, it removes one edge from `p` to `c`, on both
/// of its ends, for every time that the pair `(p, c)` occurs among the
/// pairs it unlinks, and keeps every other edge; the arena stays
/// well-formed and keeps its slots.
pub proof fn lemma_unlink_pairs_counts<D, P, C>(v: ArenaView<D, P, C>, pairs: Seq<(NodeIdx, NodeIdx)>)
    requires
        v.wf(),
        forall|k: int| 0 <= k < pairs.len() ==> v.has((#[trigger] pairs[k]).0) && v.has(pairs[k].1),
    ensures
        v.unlink_pairs(pairs).0.wf(),
        v.unlink_pairs(pairs).0.nodes.len() == v.nodes.len(),
        v.unlink_pairs(pairs).1 is None ==> forall|p: NodeIdx, c: NodeIdx|
            #![trigger count_of(v.unlink_pairs(pairs).0.node(p).children, c)]
            #![trigger count_of(v.unlink_pairs(pairs).0.node(c).parents, p)]
            v.has(p) && v.has(c) ==> {
                &&& count_of(v.unlink_pairs(pairs).0.node(p).children, c) + pair_count(pairs, (p, c))
                    == count_of(v.node(p).children, c)
                &&& count_of(v.unlink_pairs(pairs).0.node(c).parents, p) + pair_count(pairs, (p, c))
                    == count_of(v.node(c).parents, p)
            },
    decreases pairs.len(),
{
    if pairs.len() > 0 {
        let t = pairs.drop_last();
        assert forall|k: int| 0 <= k < t.len() implies v.has((#[trigger] t[k]).0) && v.has(t[k].1) by {
            assert(t[k] == pairs[k]);
        }
        lemma_unlink_pairs_counts(v, t);
        let (w1, f1) = v.unlink_pairs(t);
        let e = pairs.last();
        assert(pairs[pairs.len() - 1] == e);
        if f1 is None && w1.has_edge(e.0, e.1) {
            lemma_wf_unlink(w1, e.0, e.1);
            let w = w1.unlink(e.0, e.1);
            assert(NodeIdx(e.0.id() as usize) == e.0);
            assert(NodeIdx(e.1.id() as usize) == e.1);
            assert(w1.balanced(e.0.id(), e.1.id()));
            assert forall|p: NodeIdx, c: NodeIdx| v.has(p) && v.has(c) implies {
                &&& count_of(w.node(p).children, c) + pair_count(pairs, (p, c)) == count_of(v.node(p).children, c)
                &&& count_of(w.node(c).parents, p) + pair_count(pairs, (p, c)) == count_of(v.node(c).parents, p)
            } by {
                assert(count_of(w1.node(p).children, c) + pair_count(t, (p, c)) == count_of(v.node(p).children, c));
                assert(count_of(w1.node(c).parents, p) + pair_count(t, (p, c)) == count_of(v.node(c).parents, p));
                lemma_remove_first_count(w1.node(e.0).children, e.1, c);
                lemma_remove_first_count(w1.node(e.1).parents, e.0, p);
                if p == e.0 {
                    assert(w.node(p).children == remove_first(w1.node(e.0).children, e.1));
                } else {
                    assert(w.node(p).children == w1.node(p).children);
                }
                if c == e.1 {
                    assert(w.node(c).parents == remove_first(w1.node(e.1).parents, e.0));
                } else {
                    assert(w.node(c).parents == w1.node(c).parents);
                }
            }
        }
    }
}

/// How often a pair occurs in `pairs`: never when it is absent, at least
/// once when present, and exactly once when `pairs` has no repeats.
proof fn lemma_pair_count(pairs: Seq<(NodeIdx, NodeIdx)>, e: (NodeIdx, NodeIdx))
    ensures
        !pairs.contains(e) ==> pair_count(pairs, e) == 0,
        pairs.contains(e) ==> pair_count(pairs, e) >= 1,
        pairs.contains(e) && pairs.no_duplicates() ==> pair_count(pairs, e) == 1,
    decreases pairs.len(),
{
    if pairs.len() > 0 {
        let t = pairs.drop_last();
        lemma_pair_count(t, e);
        assert(pairs.last() == pairs[pairs.len() - 1]);
        if t.contains(e) {
            let k = choose|k: int| 0 <= k < t.len() && t[k] == e;
            assert(pairs[k] == e);
            if pairs.no_duplicates() {
                assert(pairs.last() != e);
            }
        } else if pairs.contains(e) {
            let k = choose|k: int| 0 <= k < pairs.len() && pairs[k] == e;
            if k < t.len() {
                assert(t[k] == e);
            }
        }
        if pairs.no_duplicates() {
            assert forall|a: int, b: int| 0 <= a < t.len() && 0 <= b < t.len() && a != b implies t[a] != t[b] by {
                assert(t[a] == pairs[a] && t[b] == pairs[b]);
            }
        }
    }
}

/// The pairs of `grid(ps, cs)` are those of a node of `ps` with a node of
/// `cs`, and none occurs twice when neither list has repeats.
pub proof fn lemma_grid_members(ps: Seq<NodeIdx>, cs: Seq<NodeIdx>)
    ensures
        forall|e: (NodeIdx, NodeIdx)| #[trigger] grid(ps, cs).contains(e) <==> (ps.contains(e.0) && cs.contains(e.1)),
        ps.no_duplicates() && cs.no_duplicates() ==> grid(ps, cs).no_duplicates(),
    decreases ps.len(),
{
    if ps.len() > 0 {
        let t = ps.drop_last();
        let x = ps.last();
        lemma_grid_members(t, cs);
        let g = grid(t, cs);
        let row = cs.map_values(|c: NodeIdx| (x, c));
        assert(grid(ps, cs) == g + row);
        assert forall|e: (NodeIdx, NodeIdx)| #[trigger] grid(ps, cs).contains(e) <==> (ps.contains(e.0) && cs.contains(
            e.1,
        )) by {
            if grid(ps, cs).contains(e) {
                let k = choose|k: int| 0 <= k < (g + row).len() && (g + row)[k] == e;
                if k < g.len() {
                    assert(g[k] == e);
                    assert(g.contains(e));
                    let i = choose|i: int| 0 <= i < t.len() && t[i] == e.0;
                    assert(ps[i] == e.0);
                } else {
                    assert(row[k - g.len()] == e);
                    assert(cs[k - g.len()] == e.1);
                    assert(ps[ps.len() - 1] == e.0);
                }
            }
            if ps.contains(e.0) && cs.contains(e.1) {
                let i = choose|i: int| 0 <= i < ps.len() && ps[i] == e.0;
                let j = choose|j: int| 0 <= j < cs.len() && cs[j] == e.1;
                if i < t.len() {
                    assert(t[i] == e.0);
                    assert(g.contains(e));
                    let k = choose|k: int| 0 <= k < g.len() && g[k] == e;
                    assert((g + row)[k] == e);
                } else {
                    assert(row[j] == e);
                    assert((g + row)[g.len() + j] == e);
                }
            }
        }
        if ps.no_duplicates() && cs.no_duplicates() {
            assert forall|a: int, b: int| 0 <= a < t.len() && 0 <= b < t.len() && a != b implies t[a] != t[b] by {
                assert(t[a] == ps[a] && t[b] == ps[b]);
            }
            let w = g + row;
            assert forall|a: int, b: int| 0 <= a < w.len() && 0 <= b < w.len() && a != b implies w[a] != w[b] by {
                if a < g.len() && b < g.len() {
                    assert(w[a] == g[a] && w[b] == g[b]);
                } else if a >= g.len() && b >= g.len() {
                    assert(w[a] == row[a - g.len()] && w[b] == row[b - g.len()]);
                    assert(cs[a - g.len()] != cs[b - g.len()]);
                } else {
                    let (i, j) = if a < g.len() {
                        (a, b)
                    } else {
                        (b, a)
                    };
                    assert(w[i] == g[i]);
                    assert(g.contains(g[i]));
                    let m = choose|m: int| 0 <= m < t.len() && t[m] == g[i].0;
                    assert(ps[m] == g[i].0);
                    assert(w[j] == row[j - g.len()]);
                    assert(w[j].0 == ps[ps.len() - 1]);
                }
            }
        }
    }
}

/// Unlinking pairs that are all edges and occur once each never gets
/// stuck.
proof fn lemma_unlink_pairs_succeeds<D, P, C>(v: ArenaView<D, P, C>, pairs: Seq<(NodeIdx, NodeIdx)>)
    requires
        v.wf(),
        forall|k: int| 0 <= k < pairs.len() ==> v.has((#[trigger] pairs[k]).0) && v.has(pairs[k].1),
        forall|k: int| 0 <= k < pairs.len() ==> v.has_edge((#[trigger] pairs[k]).0, pairs[k].1),
        pairs.no_duplicates(),
    ensures
        v.unlink_pairs(pairs).1 is None,
    decreases pairs.len(),
{
    if pairs.len() > 0 {
        let t = pairs.drop_last();
        let e = pairs.last();
        assert(pairs[pairs.len() - 1] == e);
        assert forall|k: int| 0 <= k < t.len() implies v.has((#[trigger] t[k]).0) && v.has(t[k].1) by {
            assert(t[k] == pairs[k]);
        }
        assert forall|k: int| 0 <= k < t.len() implies v.has_edge((#[trigger] t[k]).0, t[k].1) by {
            assert(t[k] == pairs[k]);
        }
        assert forall|a: int, b: int| 0 <= a < t.len() && 0 <= b < t.len() && a != b implies t[a] != t[b] by {
            assert(t[a] == pairs[a] && t[b] == pairs[b]);
        }
        lemma_unlink_pairs_succeeds(v, t);
        lemma_unlink_pairs_counts(v, t);
        if t.contains(e) {
            let k = choose|k: int| 0 <= k < t.len() && t[k] == e;
            assert(pairs[k] == e);
        }
        lemma_pair_count(t, e);
        let w = v.unlink_pairs(t).0;
        assert(count_of(w.node(e.0).children, e.1) + pair_count(t, (e.0, e.1)) == count_of(v.node(e.0).children, e.1));
    }
}

/// `rm_edges` with parents and children listed without repeats succeeds
/// exactly when every listed parent has an edge to every listed child; it
/// then removes one edge for each such pair, on both of its ends, and keeps
/// every other edge.
pub proof fn lemma_rm_edges_grid<D, P, C>(v: ArenaView<D, P, C>, ps: Seq<NodeIdx>, cs: Seq<NodeIdx>)
    requires
        v.wf(),
        forall|k: int| 0 <= k < ps.len() ==> v.has(#[trigger] ps[k]),
        forall|k: int| 0 <= k < cs.len() ==> v.has(#[trigger] cs[k]),
        ps.no_duplicates(),
        cs.no_duplicates(),
    ensures
        (v.unlink_pairs(grid(ps, cs)).1 is None) <==> (forall|i: int, j: int|
            0 <= i < ps.len() && 0 <= j < cs.len() ==> #[trigger] v.has_edge(ps[i], cs[j])),
        v.unlink_pairs(grid(ps, cs)).1 is None ==> forall|p: NodeIdx, c: NodeIdx|
            #![trigger count_of(v.unlink_pairs(grid(ps, cs)).0.node(p).children, c)]
            #![trigger count_of(v.unlink_pairs(grid(ps, cs)).0.node(c).parents, p)]
            v.has(p) && v.has(c) ==> {
                let gone: nat = if ps.contains(p) && cs.contains(c) {
                    1
                } else {
                    0
                };
                &&& count_of(v.unlink_pairs(grid(ps, cs)).0.node(p).children, c) + gone == count_of(
                    v.node(p).children,
                    c,
                )
                &&& count_of(v.unlink_pairs(grid(ps, cs)).0.node(c).parents, p) + gone == count_of(
                    v.node(c).parents,
                    p,
                )
            },
{
    let g = grid(ps, cs);
    lemma_grid_members(ps, cs);
    assert forall|k: int| 0 <= k < g.len() implies v.has((#[trigger] g[k]).0) && v.has(g[k].1) by {
        assert(g.contains(g[k]));
        let i = choose|i: int| 0 <= i < ps.len() && ps[i] == g[k].0;
        let j = choose|j: int| 0 <= j < cs.len() && cs[j] == g[k].1;
    }
    lemma_unlink_pairs_counts(v, g);
    let w = v.unlink_pairs(g).0;
    if v.unlink_pairs(g).1 is None {
        assert forall|i: int, j: int| 0 <= i < ps.len() && 0 <= j < cs.len() implies #[trigger] v.has_edge(ps[i], cs[j]) by {
            let e = (ps[i], cs[j]);
            assert(ps.contains(e.0) && cs.contains(e.1));
            assert(g.contains(e));
            lemma_pair_count(g, e);
            assert(count_of(w.node(ps[i]).children, cs[j]) + pair_count(g, (ps[i], cs[j])) == count_of(
                v.node(ps[i]).children,
                cs[j],
            ));
        }
        assert forall|p: NodeIdx, c: NodeIdx| v.has(p) && v.has(c) implies {
            let gone: nat = if ps.contains(p) && cs.contains(c) {
                1
            } else {
                0
            };
            &&& count_of(w.node(p).children, c) + gone == count_of(v.node(p).children, c)
            &&& count_of(w.node(c).parents, p) + gone == count_of(v.node(c).parents, p)
        } by {
            lemma_pair_count(g, (p, c));
            assert(g.contains((p, c)) <==> (ps.contains(p) && cs.contains(c)));
            assert(count_of(w.node(p).children, c) + pair_count(g, (p, c)) == count_of(v.node(p).children, c));
            assert(count_of(w.node(c).parents, p) + pair_count(g, (p, c)) == count_of(v.node(c).parents, p));
        }
    } else {
        if forall|i: int, j: int| 0 <= i < ps.len() && 0 <= j < cs.len() ==> #[trigger] v.has_edge(ps[i], cs[j]) {
            assert forall|k: int| 0 <= k < g.len() implies v.has_edge((#[trigger] g[k]).0, g[k].1) by {
                assert(g.contains(g[k]));
                let i = choose|i: int| 0 <= i < ps.len() && ps[i] == g[k].0;
                let j = choose|j: int| 0 <= j < cs.len() && cs[j] == g[k].1;
                assert(v.has_edge(ps[i], cs[j]));
            }
            lemma_unlink_pairs_succeeds(v, g);
        }
    }
}

pub(crate) proof fn lemma_paired_walks_step<D, P, C>(
    sv: ArenaView<D, P, C>,
    ov: ArenaView<D, P, C>,
    sr: Seq<NodeIdx>,
    or: Seq<NodeIdx>,
    i: int,
)
    requires
        0 <= i < sr.len(),
        sr.len() == or.len(),
    ensures
        paired_walks(sv, ov, sr.take(i + 1), or) == paired_walks(sv, ov, sr.take(i), or) + zip_idxs(
            sv.preorder(sr[i]),
            ov.preorder(or[i]),
        ),
        paired_walks(sv, ov, sr, or).take(paired_walks(sv, ov, sr.take(i + 1), or).len() as int)
            == paired_walks(sv, ov, sr.take(i + 1), or),
        paired_walks(sv, ov, sr.take(i + 1), or).len() <= paired_walks(sv, ov, sr, or).len(),
{
    assert(sr.take(i + 1).drop_last() =~= sr.take(i));
    assert(sr.take(i + 1).last() == sr[i]);
    lemma_paired_walks_prefix(sv, ov, sr, or, i + 1);
}

pub(crate) proof fn lemma_paired_walks_prefix<D, P, C>(
    sv: ArenaView<D, P, C>,
    ov: ArenaView<D, P, C>,
    sr: Seq<NodeIdx>,
    or: Seq<NodeIdx>,
    i: int,
)
    requires
        0 <= i <= sr.len(),
    ensures
        paired_walks(sv, ov, sr, or).take(paired_walks(sv, ov, sr.take(i), or).len() as int)
            == paired_walks(sv, ov, sr.take(i), or),
        paired_walks(sv, ov, sr.take(i), or).len() <= paired_walks(sv, ov, sr, or).len(),
    decreases sr.len(),
{
    if i == sr.len() {
        assert(sr.take(i) =~= sr);
        let w = paired_walks(sv, ov, sr, or);
        assert(w.take(w.len() as int) =~= w);
    } else {
        lemma_paired_walks_prefix(sv, ov, sr.drop_last(), or, i);
        assert(sr.drop_last().take(i) =~= sr.take(i));
        let w = paired_walks(sv, ov, sr, or);
        let w1 = paired_walks(sv, ov, sr.drop_last(), or);
        let p = paired_walks(sv, ov, sr.take(i), or);
        assert(w.take(p.len() as int) =~= w1.take(p.len() as int));
    }
}

/// One step of the depth-first event loop: descending into the `k`-th
/// child of the top frame.
proof fn lemma_events_step<D, P, C>(
    v: ArenaView<D, P, C>,
    st0: Seq<(NodeIdx, usize, usize)>,
    x: NodeIdx,
    k: usize,
    f: usize,
)
    requires
        st0.len() > 0,
        st0.last() == (x, k, f),
        f >= 1,
        k < v.children_of(x).len(),
        k + 1 <= usize::MAX,
    ensures
        ({
            let c = v.children_of(x)[k as int];
            let rest = st0.drop_last();
            let st1 = rest.push((x, (k + 1) as usize, f));
            let inter = if k > 0 {
                seq![(TraversalType::Interspersed, x)]
            } else {
                Seq::empty()
            };
            if f - 1 > 0 {
                inter + seq![(TraversalType::Pre, c)] + v.events_pending(st1.push((c, 0usize, (f - 1) as usize)))
                    == v.events_pending(st0)
            } else {
                inter + v.events_pending(st1) == v.events_pending(st0)
            }
        }),
{
    let c = v.children_of(x)[k as int];
    let rest = st0.drop_last();
    let st1 = rest.push((x, (k + 1) as usize, f));
    assert(st1.drop_last() =~= rest);
    assert(st1.last() == (x, (k + 1) as usize, f));
    let g = (f - 1) as nat;
    let post_x = seq![(TraversalType::Post, x)];
    let inter = if k > 0 {
        seq![(TraversalType::Interspersed, x)]
    } else {
        Seq::<(TraversalType, NodeIdx)>::empty()
    };
    assert(v.events_pending(st0) == v.events_after(x, k as nat, g) + post_x + v.events_pending(rest));
    assert(v.events_pending(st1) == v.events_after(x, (k + 1) as nat, g) + post_x + v.events_pending(rest));
    assert(v.events_after(x, k as nat, g) == inter + v.events_from(c, g) + v.events_after(x, (k + 1) as nat, g));
    if f - 1 > 0 {
        let st2 = st1.push((c, 0usize, (f - 1) as usize));
        assert(st2.drop_last() =~= st1);
        assert(st2.last() == (c, 0usize, (f - 1) as usize));
        let h = ((f - 1) - 1) as nat;
        assert(v.events_pending(st2) == v.events_after(c, 0, h) + seq![(TraversalType::Post, c)]
            + v.events_pending(st1));
        assert(v.events_from(c, g) == seq![(TraversalType::Pre, c)] + v.events_after(c, 0, h)
            + seq![(TraversalType::Post, c)]);
        assert(inter + seq![(TraversalType::Pre, c)] + v.events_pending(st2) =~= v.events_pending(st0));
    } else {
        assert(v.events_from(c, g) =~= Seq::<(TraversalType, NodeIdx)>::empty());
        assert(inter + v.events_pending(st1) =~= v.events_pending(st0));
    }
}

/// A depth-first frame on an allocated node, with at most all of its
/// children done, and fuel left.
spec fn frame_ok<D, P, C>(v: ArenaView<D, P, C>, fr: (NodeIdx, usize, usize)) -> bool {
    &&& v.has(fr.0)
    &&& fr.1 <= v.children_of(fr.0).len()
    &&& fr.2 >= 1
}

spec fn frames_ok<D, P, C>(v: ArenaView<D, P, C>, st: Seq<(NodeIdx, usize, usize)>) -> bool {
    forall|j: int| 0 <= j < st.len() ==> frame_ok(v, #[trigger] st[j])
}

/// The frames of a well-formed stack have no negative work left.
proof fn lemma_frames_left_nonneg<D, P, C>(v: ArenaView<D, P, C>, st: Seq<(NodeIdx, usize, usize)>)
    requires
        forall|j: int| 0 <= j < st.len() ==> (#[trigger] st[j]).1 <= v.children_of(st[j].0).len(),
    ensures
        v.frames_left(st) >= 0,
    decreases st.len(),
{
    if st.len() > 0 {
        let t = st.drop_last();
        assert forall|j: int| 0 <= j < t.len() implies (#[trigger] t[j]).1 <= v.children_of(t[j].0).len() by {
            assert(t[j] == st[j]);
        }
        lemma_frames_left_nonneg(v, t);
        assert(st[st.len() - 1] == st.last());
    }
}

/// The visits of a single event.
pub proof fn lemma_visits_single(e: (TraversalType, NodeIdx), t: TraversalType)
    ensures
        visits(seq![e], t) == if e.0 == t {
            seq![e.1]
        } else {
            Seq::<NodeIdx>::empty()
        },
{
    assert(seq![e].drop_first() =~= Seq::<(TraversalType, NodeIdx)>::empty());
    assert(visits(seq![e].drop_first(), t) =~= Seq::<NodeIdx>::empty());
    assert(visits(seq![e], t) =~= if e.0 == t {
        seq![e.1]
    } else {
        Seq::<NodeIdx>::empty()
    });
}

/// The visits of two runs of events, one after the other.
pub proof fn lemma_visits_concat(
    a: Seq<(TraversalType, NodeIdx)>,
    b: Seq<(TraversalType, NodeIdx)>,
    t: TraversalType,
)
    ensures
        visits(a + b, t) == visits(a, t) + visits(b, t),
    decreases a.len(),
{
    if a.len() == 0 {
        assert(a + b =~= b);
    } else {
        assert((a + b).drop_first() =~= a.drop_first() + b);
        lemma_visits_concat(a.drop_first(), b, t);
        assert(visits(a + b, t) =~= visits(a, t) + visits(b, t));
    }
}

/// The nodes left by the depth-first events are the post-order.
pub proof fn lemma_post_events<D, P, C>(v: ArenaView<D, P, C>, x: NodeIdx, fuel: nat)
    ensures
        visits(v.events_from(x, fuel), TraversalType::Post) == v.post_from(x, fuel),
    decreases fuel, 0int,
{
    if fuel > 0 {
        let g = (fuel - 1) as nat;
        let cs = v.children_of(x);
        lemma_post_events_after(v, x, 0, g);
        assert(cs.subrange(0, cs.len() as int) =~= cs);
        let pre = seq![(TraversalType::Pre, x)];
        let post = seq![(TraversalType::Post, x)];
        lemma_visits_concat(pre + v.events_after(x, 0, g), post, TraversalType::Post);
        lemma_visits_concat(pre, v.events_after(x, 0, g), TraversalType::Post);
        lemma_visits_single((TraversalType::Pre, x), TraversalType::Post);
        lemma_visits_single((TraversalType::Post, x), TraversalType::Post);
        assert(visits(v.events_from(x, fuel), TraversalType::Post) =~= v.post_from(x, fuel));
    }
}

proof fn lemma_post_events_after<D, P, C>(v: ArenaView<D, P, C>, x: NodeIdx, k: nat, fuel: nat)
    ensures
        k <= v.children_of(x).len() ==> visits(v.events_after(x, k, fuel), TraversalType::Post)
            == v.post_list(v.children_of(x).subrange(k as int, v.children_of(x).len() as int), fuel),
    decreases fuel, v.children_of(x).len() - k,
{
    let cs = v.children_of(x);
    if k < cs.len() {
        lemma_post_events(v, cs[k as int], fuel);
        lemma_post_events_after(v, x, k + 1, fuel);
        let inter = if k > 0 {
            seq![(TraversalType::Interspersed, x)]
        } else {
            Seq::<(TraversalType, NodeIdx)>::empty()
        };
        lemma_visits_concat(inter + v.events_from(cs[k as int], fuel), v.events_after(x, k + 1, fuel), TraversalType::Post);
        lemma_visits_concat(inter, v.events_from(cs[k as int], fuel), TraversalType::Post);
        if k > 0 {
            lemma_visits_single((TraversalType::Interspersed, x), TraversalType::Post);
        } else {
            assert(visits(inter, TraversalType::Post) =~= Seq::<NodeIdx>::empty());
        }
        let xs = cs.subrange(k as int, cs.len() as int);
        assert(xs[0] == cs[k as int]);
        assert(xs.drop_first() =~= cs.subrange(k as int + 1, cs.len() as int));
        assert(visits(v.events_after(x, k, fuel), TraversalType::Post) =~= v.post_list(xs, fuel));
    } else if k == cs.len() {
        assert(cs.subrange(k as int, cs.len() as int) =~= Seq::<NodeIdx>::empty());
    }
}

/// The first parent of `x` is linked to it.
pub proof fn lemma_first_parent_edge<D, P, C>(v: ArenaView<D, P, C>, x: NodeIdx)
    requires
        v.wf(),
        v.has(x),
        v.node(x).parents.len() > 0,
    ensures
        v.has(v.node(x).parents[0].0),
        v.has_edge(v.node(x).parents[0].0, x),
{
    let p = v.node(x).parents[0].0;
    assert(v.has(v.nodes[x.id()].parents[0].0));
    assert(v.balanced(p.id(), x.id()));
    assert(v.nodes[p.id()] == v.node(p));
    assert(NodeIdx(p.id() as usize) == p);
    assert(NodeIdx(x.id() as usize) == x);
    lemma_first_index_bounds(v.node(x).parents, p);
}

/// Part way through removing the parent edges of `x`, whose parents were
/// `ps` in the arena `w0`: the first `m` of them are gone.
spec fn unlinking<D, P, C>(
    cur: ArenaView<D, P, C>,
    w0: ArenaView<D, P, C>,
    x: NodeIdx,
    ps: Seq<NodeIdx>,
    m: int,
) -> bool {
    &&& cur.wf()
    &&& cur.nodes.len() == w0.nodes.len()
    &&& cur.garbage == w0.garbage
    &&& cur.node(x).parents == w0.node(x).parents.skip(m)
    &&& forall|y: NodeIdx|
        #![trigger cur.node(y)]
        w0.has(y) ==> {
            &&& cur.node(y).idx == w0.node(y).idx
            &&& cur.node(y).data == w0.node(y).data
            &&& (y != x ==> cur.node(y).parents == w0.node(y).parents)
            &&& cur.node(y).children == remove_first_n(
                w0.node(y).children,
                x,
                occurrences(ps.take(m), y),
            )
        }
}

proof fn lemma_unlinking_edge<D, P, C>(
    cur: ArenaView<D, P, C>,
    w0: ArenaView<D, P, C>,
    x: NodeIdx,
    ps: Seq<NodeIdx>,
    m: int,
)
    requires
        w0.wf(),
        w0.has(x),
        ps == w0.parents_of(x),
        0 <= m < ps.len(),
        unlinking(cur, w0, x, ps, m),
    ensures
        cur.has(ps[m]),
        cur.has_edge(ps[m], x),
        first_index(cur.node(x).parents, ps[m]) == 0,
{
    let p = ps[m];
    assert(w0.has(w0.node(x).parents[m].0));
    assert(ps[m] == w0.node(x).parents[m].0);
    assert(cur.node(x).parents[0] == w0.node(x).parents[m]);
    assert(cur.balanced(p.id(), x.id()));
    assert(cur.nodes[p.id()] == cur.node(p));
    assert(NodeIdx(p.id() as usize) == p);
    assert(NodeIdx(x.id() as usize) == x);
    lemma_first_index_bounds(cur.node(x).parents, p);
}

proof fn lemma_unlinking_step<D, P, C>(
    cur: ArenaView<D, P, C>,
    next: ArenaView<D, P, C>,
    w0: ArenaView<D, P, C>,
    x: NodeIdx,
    ps: Seq<NodeIdx>,
    m: int,
)
    requires
        w0.wf(),
        w0.has(x),
        ps == w0.parents_of(x),
        0 <= m < ps.len(),
        unlinking(cur, w0, x, ps, m),
        cur.has(ps[m]),
        cur.has_edge(ps[m], x),
        first_index(cur.node(x).parents, ps[m]) == 0,
        next.wf(),
        next == cur.unlink(ps[m], x),
    ensures
        unlinking(next, w0, x, ps, m + 1),
{
    let p = ps[m];
    lemma_wf_unlink(cur, p, x);
    assert(ps.take(m + 1) =~= ps.take(m).push(p));
    assert(cur.node(x).parents.remove(0) =~= w0.node(x).parents.skip(m + 1));
    assert forall|y: NodeIdx| #![trigger next.node(y)] w0.has(y) implies {
        &&& next.node(y).idx == w0.node(y).idx
        &&& next.node(y).data == w0.node(y).data
        &&& (y != x ==> next.node(y).parents == w0.node(y).parents)
        &&& next.node(y).children == remove_first_n(
            w0.node(y).children,
            x,
            occurrences(ps.take(m + 1), y),
        )
    } by {
        assert(cur.node(y).idx == w0.node(y).idx);
        lemma_occurrences_push(ps.take(m), p, y);
        lemma_remove_first_n_step(w0.node(y).children, x, occurrences(ps.take(m), y));
    }
}

proof fn lemma_unlinking_done<D, P, C>(
    cur: ArenaView<D, P, C>,
    w0: ArenaView<D, P, C>,
    x: NodeIdx,
    ps: Seq<NodeIdx>,
)
    requires
        w0.wf(),
        w0.has(x),
        ps == w0.parents_of(x),
        unlinking(cur, w0, x, ps, ps.len() as int),
    ensures
        cur == w0.detach(set![x]),
{
    let target = w0.detach(set![x]);
    assert(ps.take(ps.len() as int) =~= ps);
    assert(w0.node(x).parents.skip(ps.len() as int) =~= Seq::<(NodeIdx, P)>::empty());
    assert forall|j: int| 0 <= j < cur.nodes.len() implies cur.nodes[j] == target.nodes[j] by {
        let y = NodeIdx(j as usize);
        assert(cur.nodes[j] == cur.node(y));
        assert(w0.nodes[j] == w0.node(y));
        assert(w0.has(y));
        lemma_occurrences_idxs(w0.node(x).parents, y);
        assert(w0.balanced(j, x.id()));
        assert(NodeIdx(x.id() as usize) == x);
        lemma_remove_first_n_all(w0.node(y).children, x, count_of(w0.node(y).children, x));
    }
    assert(cur =~= target);
}

/// Part way through removing the child edges of `x`, whose children were
/// `cs` in the arena `w0`: the first `m` of them are gone.
spec fn unlinking_down<D, P, C>(
    cur: ArenaView<D, P, C>,
    w0: ArenaView<D, P, C>,
    x: NodeIdx,
    cs: Seq<NodeIdx>,
    m: int,
) -> bool {
    &&& cur.wf()
    &&& cur.nodes.len() == w0.nodes.len()
    &&& cur.garbage == w0.garbage
    &&& cur.node(x).children == w0.node(x).children.skip(m)
    &&& forall|y: NodeIdx|
        #![trigger cur.node(y)]
        w0.has(y) ==> {
            &&& cur.node(y).idx == w0.node(y).idx
            &&& cur.node(y).data == w0.node(y).data
            &&& (y != x ==> cur.node(y).children == w0.node(y).children)
            &&& cur.node(y).parents == remove_first_n(
                w0.node(y).parents,
                x,
                occurrences(cs.take(m), y),
            )
        }
}

proof fn lemma_unlinking_down_edge<D, P, C>(
    cur: ArenaView<D, P, C>,
    w0: ArenaView<D, P, C>,
    x: NodeIdx,
    cs: Seq<NodeIdx>,
    m: int,
)
    requires
        w0.wf(),
        w0.has(x),
        cs == w0.children_of(x),
        0 <= m < cs.len(),
        unlinking_down(cur, w0, x, cs, m),
    ensures
        cur.has(cs[m]),
        cur.has_edge(x, cs[m]),
        first_index(cur.node(x).children, cs[m]) == 0,
{
    let c = cs[m];
    assert(w0.has(w0.node(x).children[m].0));
    assert(cs[m] == w0.node(x).children[m].0);
    assert(cur.node(x).children[0] == w0.node(x).children[m]);
    lemma_first_index_bounds(cur.node(x).children, c);
}

proof fn lemma_unlinking_down_step<D, P, C>(
    cur: ArenaView<D, P, C>,
    next: ArenaView<D, P, C>,
    w0: ArenaView<D, P, C>,
    x: NodeIdx,
    cs: Seq<NodeIdx>,
    m: int,
)
    requires
        w0.wf(),
        w0.has(x),
        cs == w0.children_of(x),
        0 <= m < cs.len(),
        unlinking_down(cur, w0, x, cs, m),
        cur.has(cs[m]),
        cur.has_edge(x, cs[m]),
        first_index(cur.node(x).children, cs[m]) == 0,
        next.wf(),
        next == cur.unlink(x, cs[m]),
    ensures
        unlinking_down(next, w0, x, cs, m + 1),
{
    let c = cs[m];
    lemma_wf_unlink(cur, x, c);
    assert(cs.take(m + 1) =~= cs.take(m).push(c));
    assert(cur.node(x).children.remove(0) =~= w0.node(x).children.skip(m + 1));
    assert forall|y: NodeIdx| #![trigger next.node(y)] w0.has(y) implies {
        &&& next.node(y).idx == w0.node(y).idx
        &&& next.node(y).data == w0.node(y).data
        &&& (y != x ==> next.node(y).children == w0.node(y).children)
        &&& next.node(y).parents == remove_first_n(
            w0.node(y).parents,
            x,
            occurrences(cs.take(m + 1), y),
        )
    } by {
        assert(cur.node(y).idx == w0.node(y).idx);
        lemma_occurrences_push(cs.take(m), c, y);
        lemma_remove_first_n_step(w0.node(y).parents, x, occurrences(cs.take(m), y));
    }
}

proof fn lemma_unlinking_down_done<D, P, C>(
    cur: ArenaView<D, P, C>,
    w0: ArenaView<D, P, C>,
    x: NodeIdx,
    cs: Seq<NodeIdx>,
)
    requires
        w0.wf(),
        w0.has(x),
        cs == w0.children_of(x),
        unlinking_down(cur, w0, x, cs, cs.len() as int),
    ensures
        cur == w0.unparent(set![x]),
{
    let target = w0.unparent(set![x]);
    assert(cs.take(cs.len() as int) =~= cs);
    assert(w0.node(x).children.skip(cs.len() as int) =~= Seq::<(NodeIdx, C)>::empty());
    assert forall|j: int| 0 <= j < cur.nodes.len() implies cur.nodes[j] == target.nodes[j] by {
        let y = NodeIdx(j as usize);
        assert(cur.nodes[j] == cur.node(y));
        assert(w0.nodes[j] == w0.node(y));
        assert(w0.has(y));
        lemma_occurrences_idxs(w0.node(x).children, y);
        assert(w0.balanced(x.id(), j));
        assert(NodeIdx(x.id() as usize) == x);
        lemma_remove_first_n_all(w0.node(y).parents, x, count_of(w0.node(y).parents, x));
    }
    assert(cur =~= target);
}

/// Detaching `x` after detaching `gone` detaches both.
proof fn lemma_detach_detach<D, P, C>(v: ArenaView<D, P, C>, gone: Set<NodeIdx>, x: NodeIdx)
    ensures
        v.detach(gone).detach(set![x]) == v.detach(gone.insert(x)),
{
    let a = v.detach(gone).detach(set![x]);
    let b = v.detach(gone.insert(x));
    assert forall|j: int| 0 <= j < a.nodes.len() implies a.nodes[j] == b.nodes[j] by {
        lemma_without_without(v.nodes[j].children, gone, x);
    }
    assert(a =~= b);
}

/// The members of `ord[i..]` are those of `ord[i + 1..]` and `ord[i]`.
proof fn lemma_members_extend(ord: Seq<NodeIdx>, i: int)
    requires
        0 <= i < ord.len(),
    ensures
        members(ord.subrange(i, ord.len() as int)) == members(ord.subrange(i + 1, ord.len() as int)).insert(
            ord[i],
        ),
{
    let a = ord.subrange(i, ord.len() as int);
    let b = ord.subrange(i + 1, ord.len() as int);
    assert forall|y: NodeIdx| a.contains(y) <==> (b.contains(y) || y == ord[i]) by {
        if a.contains(y) && y != ord[i] {
            let k = choose|k: int| 0 <= k < a.len() && #[trigger] a[k] == y;
            assert(k > 0);
            assert(b[k - 1] == y);
        }
        if b.contains(y) {
            let k = choose|k: int| 0 <= k < b.len() && #[trigger] b[k] == y;
            assert(a[k + 1] == y);
        }
        if y == ord[i] {
            assert(a[0] == y);
        }
    }
    assert(members(a) =~= members(b).insert(ord[i]));
}

/// Detaching nothing changes nothing.
proof fn lemma_detach_nothing<D, P, C>(v: ArenaView<D, P, C>)
    ensures
        v.detach(Set::empty()) == v,
{
    assert forall|i: int| 0 <= i < v.nodes.len() implies v.detach(Set::empty()).nodes[i] == v.nodes[i] by {
        lemma_without_empty(v.nodes[i].children);
    }
    assert(v.detach(Set::empty()) =~= v);
}

/// The pre-order of a well-formed arena only visits allocated slots.
/// The neighbours of allocated nodes are allocated.
proof fn lemma_neighbors_in_range<D, P, C>(v: ArenaView<D, P, C>, xs: Seq<NodeIdx>, up: bool)
    requires
        v.linked(),
        forall|k: int| 0 <= k < xs.len() ==> v.has(#[trigger] xs[k]),
    ensures
        forall|k: int| 0 <= k < v.neighbors_of_all(xs, up).len() ==> v.has(#[trigger] v.neighbors_of_all(xs, up)[k]),
    decreases xs.len(),
{
    if xs.len() > 0 {
        let init = xs.drop_last();
        let x = xs.last();
        assert(v.has(xs[xs.len() - 1]));
        lemma_neighbors_in_range(v, init, up);
        let ns = v.neighbors_of(x, up);
        let all = v.neighbors_of_all(xs, up);
        assert(all == v.neighbors_of_all(init, up) + ns);
        assert forall|k: int| 0 <= k < all.len() implies v.has(#[trigger] all[k]) by {
            let m = v.neighbors_of_all(init, up).len();
            if k < m {
                assert(all[k] == v.neighbors_of_all(init, up)[k]);
            } else {
                assert(all[k] == ns[k - m]);
                if up {
                    lemma_idxs_of_index(v.node(x).parents, k - m);
                } else {
                    lemma_idxs_of_index(v.node(x).children, k - m);
                }
            }
        }
    }
}

/// Every node of a breadth-first exploration from allocated nodes is
/// allocated.
proof fn lemma_layers_in_range<D, P, C>(v: ArenaView<D, P, C>, layer: Seq<NodeIdx>, up: bool, fuel: nat)
    requires
        v.linked(),
        forall|k: int| 0 <= k < layer.len() ==> v.has(#[trigger] layer[k]),
    ensures
        forall|k: int| 0 <= k < v.layers(layer, up, fuel).len() ==> v.has(#[trigger] v.layers(layer, up, fuel)[k]),
    decreases fuel,
{
    if fuel > 0 {
        let next = v.neighbors_of_all(layer, up);
        if next.len() > 0 {
            lemma_neighbors_in_range(v, layer, up);
            lemma_layers_in_range(v, next, up, (fuel - 1) as nat);
            let all = v.layers(layer, up, fuel);
            let rest = v.layers(next, up, (fuel - 1) as nat);
            assert(all == layer + rest);
            assert forall|k: int| 0 <= k < all.len() implies v.has(#[trigger] all[k]) by {
                if k < layer.len() {
                    assert(all[k] == layer[k]);
                } else {
                    assert(all[k] == rest[k - layer.len()]);
                }
            }
        }
    }
}

/// Recycling `x` keeps the slots and the garbage queue, and queues `x`.
proof fn lemma_recycle_queues<D, P, C>(v: ArenaView<D, P, C>, x: NodeIdx)
    requires
        v.has(x),
    ensures
        v.recycle(x).nodes.len() == v.nodes.len(),
        v.recycle(x).garbage.take(v.garbage.len() as int) == v.garbage,
        v.recycle(x).garbage.len() >= v.garbage.len(),
        v.recycle(x).garbage.contains(x),
{
    let order = v.preorder(x);
    assert(order[0] == x);
    assert(order.reverse()[order.len() - 1] == x);
    lemma_enqueue(v.garbage, order.reverse());
}

/// Recycling the slots of `xs` one after the other keeps the slots and the
/// garbage queue, and queues every slot of `xs`.
proof fn lemma_sweep_queues<D, P, C>(v: ArenaView<D, P, C>, xs: Seq<NodeIdx>)
    requires
        forall|k: int| 0 <= k < xs.len() ==> v.has(#[trigger] xs[k]),
    ensures
        v.rm_sweep(xs).nodes.len() == v.nodes.len(),
        forall|y: NodeIdx| #[trigger] v.garbage.contains(y) ==> v.rm_sweep(xs).garbage.contains(y),
        forall|k: int| 0 <= k < xs.len() ==> v.rm_sweep(xs).garbage.contains(#[trigger] xs[k]),
    decreases xs.len(),
{
    if xs.len() > 0 {
        let t = xs.drop_last();
        assert forall|k: int| 0 <= k < t.len() implies v.has(#[trigger] t[k]) by {
            assert(t[k] == xs[k]);
        }
        lemma_sweep_queues(v, t);
        let w = v.rm_sweep(t);
        assert(v.has(xs[xs.len() - 1]));
        lemma_recycle_queues(w, xs.last());
        let g = w.recycle(xs.last()).garbage;
        assert forall|y: NodeIdx| #[trigger] w.garbage.contains(y) implies g.contains(y) by {
            let m = choose|m: int| 0 <= m < w.garbage.len() && w.garbage[m] == y;
            assert(g.take(w.garbage.len() as int)[m] == y);
        }
        assert forall|k: int| 0 <= k < xs.len() implies v.rm_sweep(xs).garbage.contains(#[trigger] xs[k]) by {
            if k < xs.len() - 1 {
                assert(t[k] == xs[k]);
                assert(w.garbage.contains(t[k]));
            }
        }
    }
}

/// Clearing an arena leaves every slot queued as garbage: each slot that
/// was not garbage yet is recycled, and recycling only adds to the queue.
pub proof fn lemma_clear_all_garbage<D, P, C>(v: ArenaView<D, P, C>)
    requires
        v.wf(),
    ensures
        v.rm_sweep(v.live_slots()).nodes.len() == v.nodes.len(),
        forall|y: NodeIdx| v.has(y) ==> #[trigger] v.rm_sweep(v.live_slots()).garbage.contains(y),
{
    let all = Seq::new(v.nodes.len(), |i: int| NodeIdx(i as usize));
    let pred = |x: NodeIdx| !v.garbage.contains(x);
    let live = v.live_slots();
    assert(live == all.filter(pred));
    broadcast use vstd::seq_lib::group_filter_ensures;
    assert forall|k: int| 0 <= k < live.len() implies v.has(#[trigger] live[k]) by {
        assert(live.contains(live[k]));
        all.lemma_filter_contains_rev(pred, live[k]);
        let m = choose|m: int| 0 <= m < all.len() && all[m] == live[k];
        assert(all[m].id() < v.nodes.len());
    }
    lemma_sweep_queues(v, live);
    assert forall|y: NodeIdx| v.has(y) implies #[trigger] v.rm_sweep(live).garbage.contains(y) by {
        if !v.garbage.contains(y) {
            assert(all[y.id()] == y);
            all.lemma_filter_contains(pred, y.id());
            let k = choose|k: int| 0 <= k < live.len() && live[k] == y;
        }
    }
}

/// The slot numbers of the entries of `q` below `i`.
spec fn ids_below(q: Seq<NodeIdx>, i: int) -> Set<int> {
    q.map_values(|x: NodeIdx| x.id()).to_set().filter(|j: int| j < i)
}

/// The slots below `n` that `q` does not hold, in slot order.
pub open spec fn unqueued(q: Seq<NodeIdx>, n: nat) -> Seq<NodeIdx> {
    Seq::new(n, |k: int| NodeIdx(k as usize)).filter(|x: NodeIdx| !q.contains(x))
}

/// Among the first `i` of `n` slots, those that `q` does not hold and those
/// that it holds add up to `i`.
proof fn lemma_unqueued_prefix(q: Seq<NodeIdx>, n: nat, i: int)
    requires
        n <= usize::MAX,
        0 <= i <= n,
    ensures
        ids_below(q, i).finite(),
        Seq::new(n, |k: int| NodeIdx(k as usize)).take(i).filter(|x: NodeIdx| !q.contains(x)).len()
            + ids_below(q, i).len() == i,
    decreases i,
{
    let all = Seq::new(n, |k: int| NodeIdx(k as usize));
    let pred = |x: NodeIdx| !q.contains(x);
    let ids = q.map_values(|x: NodeIdx| x.id());
    vstd::seq_lib::seq_to_set_is_finite(ids);
    if i > 0 {
        lemma_unqueued_prefix(q, n, i - 1);
        assert(all.take(i) =~= all.take(i - 1).push(all[i - 1]));
        all.take(i - 1).lemma_filter_push(all[i - 1], pred);
        let a = ids_below(q, i - 1);
        let b = ids_below(q, i);
        let x = NodeIdx((i - 1) as usize);
        assert(all[i - 1] == x);
        if q.contains(x) {
            let m = choose|m: int| 0 <= m < q.len() && q[m] == x;
            assert(ids[m] == i - 1);
            assert(ids.to_set().contains(i - 1));
            assert(b =~= a.insert(i - 1));
        } else {
            assert forall|j: int| b.contains(j) implies a.contains(j) by {
                let m = choose|m: int| 0 <= m < ids.len() && ids[m] == j;
                if j == i - 1 {
                    assert(q[m] == x);
                }
            }
            assert(b =~= a);
        }
    } else {
        assert(all.take(0) =~= Seq::<NodeIdx>::empty());
        assert(ids_below(q, 0) =~= Set::<int>::empty());
    }
}

/// A queue of distinct slots below `n` holds at most `n` entries, and
/// leaves exactly `n` minus its length of those slots out.
pub proof fn lemma_queue_count(q: Seq<NodeIdx>, n: nat)
    requires
        n <= usize::MAX,
        q.no_duplicates(),
        forall|k: int| 0 <= k < q.len() ==> (#[trigger] q[k]).id() < n,
    ensures
        q.len() <= n,
        n - q.len() == unqueued(q, n).len(),
{
    let all = Seq::new(n, |k: int| NodeIdx(k as usize));
    let ids = q.map_values(|x: NodeIdx| x.id());
    lemma_unqueued_prefix(q, n, n as int);
    assert(all.take(n as int) =~= all);
    assert forall|a: int, b: int| 0 <= a < ids.len() && 0 <= b < ids.len() && a != b implies ids[a] != ids[b] by {
        assert(q[a] != q[b]);
    }
    ids.unique_seq_to_set();
    assert forall|j: int| #[trigger] ids.to_set().contains(j) implies j < n by {
        let m = choose|m: int| 0 <= m < ids.len() && ids[m] == j;
        assert(q[m].id() < n);
    }
    assert(ids_below(q, n as int) =~= ids.to_set());
}

/// In a well-formed arena the garbage queue is no longer than the node
/// list, and the logical size, physical size minus garbage size, is the
/// number of allocated slots that are not garbage.
pub proof fn lemma_logical_size_counts_live<D, P, C>(v: ArenaView<D, P, C>)
    requires
        v.wf(),
    ensures
        v.garbage.len() <= v.nodes.len(),
        v.nodes.len() - v.garbage.len() == v.live_slots().len(),
{
    assert forall|k: int| 0 <= k < v.garbage.len() implies (#[trigger] v.garbage[k]).id() < v.nodes.len() by {
        assert(v.has(v.garbage[k]));
    }
    lemma_queue_count(v.garbage, v.nodes.len());
    assert(unqueued(v.garbage, v.nodes.len()) == v.live_slots());
}

/// When every slot of a well-formed arena is queued as garbage, each one is
/// queued exactly once: the garbage queue is as long as the node list, and
/// the logical size is zero.
pub proof fn lemma_full_garbage<D, P, C>(v: ArenaView<D, P, C>)
    requires
        v.wf(),
        forall|y: NodeIdx| v.has(y) ==> #[trigger] v.garbage.contains(y),
    ensures
        v.live_slots().len() == 0,
        v.garbage.len() == v.nodes.len(),
{
    let all = Seq::new(v.nodes.len(), |k: int| NodeIdx(k as usize));
    let pred = |x: NodeIdx| !v.garbage.contains(x);
    let live = v.live_slots();
    lemma_logical_size_counts_live(v);
    if live.len() > 0 {
        broadcast use vstd::seq_lib::group_filter_ensures;
        assert(live.contains(live[0]));
        all.lemma_filter_contains_rev(pred, live[0]);
        let m = choose|m: int| 0 <= m < all.len() && all[m] == live[0];
        assert(v.has(all[m]));
    }
}

/// `p` is a downward path: allocated nodes, each a child of the one before
/// it.
pub open spec fn is_down_path<D, P, C>(v: ArenaView<D, P, C>, p: Seq<NodeIdx>) -> bool {
    &&& p.len() >= 1
    &&& forall|i: int| 0 <= i < p.len() ==> v.has(#[trigger] p[i])
    &&& forall|i: int| 0 <= i < p.len() - 1 ==> v.children_of(#[trigger] p[i]).contains(p[i + 1])
}

/// `y` can be reached from `x` along child edges (`x` reaches itself).
pub open spec fn reaches<D, P, C>(v: ArenaView<D, P, C>, x: NodeIdx, y: NodeIdx) -> bool {
    exists|p: Seq<NodeIdx>| #[trigger] is_down_path(v, p) && p[0] == x && p.last() == y
}

/// A node is a neighbour of a node of `xs` exactly when it is among the
/// neighbours of all of them.
proof fn lemma_neighbors_of_all_contains<D, P, C>(v: ArenaView<D, P, C>, xs: Seq<NodeIdx>, up: bool, e: NodeIdx)
    ensures
        v.neighbors_of_all(xs, up).contains(e) <==> exists|k: int|
            0 <= k < xs.len() && #[trigger] v.neighbors_of(xs[k], up).contains(e),
    decreases xs.len(),
{
    if xs.len() > 0 {
        let init = xs.drop_last();
        lemma_neighbors_of_all_contains(v, init, up, e);
        let a = v.neighbors_of_all(init, up);
        let b = v.neighbors_of(xs.last(), up);
        assert(v.neighbors_of_all(xs, up) == a + b);
        if (a + b).contains(e) {
            let m = choose|m: int| 0 <= m < (a + b).len() && (a + b)[m] == e;
            if m < a.len() {
                assert(a[m] == e);
                let k = choose|k: int| 0 <= k < init.len() && #[trigger] v.neighbors_of(init[k], up).contains(e);
                assert(xs[k] == init[k]);
            } else {
                assert(b[m - a.len()] == e);
                assert(v.neighbors_of(xs[xs.len() - 1], up).contains(e));
            }
        }
        if exists|k: int| 0 <= k < xs.len() && #[trigger] v.neighbors_of(xs[k], up).contains(e) {
            let k = choose|k: int| 0 <= k < xs.len() && #[trigger] v.neighbors_of(xs[k], up).contains(e);
            if k < init.len() {
                assert(init[k] == xs[k]);
                assert(v.neighbors_of(init[k], up).contains(e));
                let m = choose|m: int| 0 <= m < a.len() && a[m] == e;
                assert((a + b)[m] == e);
            } else {
                let m = choose|m: int| 0 <= m < b.len() && b[m] == e;
                assert((a + b)[a.len() + m] == e);
            }
        }
    }
}

/// Each node of a downward exploration from `layer` can be reached from a
/// node of `layer`.
proof fn lemma_layers_sound<D, P, C>(v: ArenaView<D, P, C>, layer: Seq<NodeIdx>, fuel: nat, y: NodeIdx)
    requires
        v.linked(),
        forall|k: int| 0 <= k < layer.len() ==> v.has(#[trigger] layer[k]),
        v.layers(layer, false, fuel).contains(y),
    ensures
        exists|k: int, p: Seq<NodeIdx>|
            #![trigger is_down_path(v, p), layer[k]]
            0 <= k < layer.len() && is_down_path(v, p) && p[0] == layer[k] && p.last() == y,
    decreases fuel,
{
    let next = v.neighbors_of_all(layer, false);
    if layer.contains(y) {
        let k = choose|k: int| 0 <= k < layer.len() && layer[k] == y;
        let p = seq![y];
        assert(is_down_path(v, p));
    } else {
        assert(fuel > 0 && next.len() > 0);
        let rest = v.layers(next, false, (fuel - 1) as nat);
        assert(v.layers(layer, false, fuel) == layer + rest);
        let m = choose|m: int| 0 <= m < (layer + rest).len() && (layer + rest)[m] == y;
        assert(rest[m - layer.len()] == y);
        assert(rest.contains(y));
        lemma_neighbors_in_range(v, layer, false);
        lemma_layers_sound(v, next, (fuel - 1) as nat, y);
        let (j, q) = choose|j: int, q: Seq<NodeIdx>|
            #![trigger is_down_path(v, q), next[j]]
            0 <= j < next.len() && is_down_path(v, q) && q[0] == next[j] && q.last() == y;
        assert(next.contains(q[0]));
        lemma_neighbors_of_all_contains(v, layer, false, q[0]);
        let k = choose|k: int| 0 <= k < layer.len() && #[trigger] v.neighbors_of(layer[k], false).contains(q[0]);
        let p = seq![layer[k]] + q;
        assert forall|i: int| 0 <= i < p.len() implies v.has(#[trigger] p[i]) by {
            if i > 0 {
                assert(p[i] == q[i - 1]);
            }
        }
        assert forall|i: int| 0 <= i < p.len() - 1 implies v.children_of(#[trigger] p[i]).contains(p[i + 1]) by {
            if i > 0 {
                assert(p[i] == q[i - 1] && p[i + 1] == q[i]);
            }
        }
        assert(is_down_path(v, p));
        assert(p.last() == q.last());
    }
}

/// The end of a downward path from a node of `layer` is found by an
/// exploration from `layer` with fuel for each of its edges.
proof fn lemma_layers_complete<D, P, C>(v: ArenaView<D, P, C>, layer: Seq<NodeIdx>, fuel: nat, p: Seq<NodeIdx>)
    requires
        is_down_path(v, p),
        layer.contains(p[0]),
        p.len() - 1 <= fuel,
    ensures
        v.layers(layer, false, fuel).contains(p.last()),
    decreases p.len(),
{
    let next = v.neighbors_of_all(layer, false);
    let all = v.layers(layer, false, fuel);
    if p.len() == 1 {
        let k = choose|k: int| 0 <= k < layer.len() && layer[k] == p[0];
        if fuel == 0 || next.len() == 0 {
            assert(all == layer);
        } else {
            assert(all == layer + v.layers(next, false, (fuel - 1) as nat));
            assert(all[k] == layer[k]);
        }
    } else {
        let k = choose|k: int| 0 <= k < layer.len() && layer[k] == p[0];
        assert(v.children_of(p[0]).contains(p[1]));
        assert(v.neighbors_of(layer[k], false).contains(p[1]));
        lemma_neighbors_of_all_contains(v, layer, false, p[1]);
        let q = p.drop_first();
        assert forall|i: int| 0 <= i < q.len() implies v.has(#[trigger] q[i]) by {
            assert(q[i] == p[i + 1]);
        }
        assert forall|i: int| 0 <= i < q.len() - 1 implies v.children_of(#[trigger] q[i]).contains(q[i + 1]) by {
            assert(q[i] == p[i + 1] && q[i + 1] == p[i + 2]);
        }
        lemma_layers_complete(v, next, (fuel - 1) as nat, q);
        let rest = v.layers(next, false, (fuel - 1) as nat);
        assert(all == layer + rest);
        let m = choose|m: int| 0 <= m < rest.len() && rest[m] == q.last();
        assert(all[layer.len() + m] == p.last());
    }
}

/// A downward path can be shortened to one of at most as many nodes as the
/// arena has slots, with the same ends.
#[verifier::rlimit(40)]
proof fn lemma_short_path<D, P, C>(v: ArenaView<D, P, C>, p: Seq<NodeIdx>)
    requires
        is_down_path(v, p),
    ensures
        exists|q: Seq<NodeIdx>| #[trigger] is_down_path(v, q) && q[0] == p[0] && q.last() == p.last() && q.len()
            <= v.nodes.len(),
    decreases p.len(),
{
    if p.len() <= v.nodes.len() {
        assert(is_down_path(v, p));
    } else {
        let ids = p.map_values(|x: NodeIdx| x.id());
        if ids.no_duplicates() {
            ids.unique_seq_to_set();
            vstd::set_lib::lemma_int_range(0, v.nodes.len() as int);
            assert forall|i: int| ids.to_set().contains(i) implies vstd::set_lib::set_int_range(
                0,
                v.nodes.len() as int,
            ).contains(i) by {
                let m = choose|m: int| 0 <= m < ids.len() && ids[m] == i;
                assert(v.has(p[m]));
            }
            vstd::set_lib::lemma_len_subset(ids.to_set(), vstd::set_lib::set_int_range(0, v.nodes.len() as int));
            assert(false);
        }
        let (i, j) = choose|i: int, j: int| 0 <= i < ids.len() && 0 <= j < ids.len() && i != j && ids[i] == ids[j];
        let (a, b) = if i < j {
            (i, j)
        } else {
            (j, i)
        };
        assert(p[a] == p[b]);
        let q = p.take(a + 1) + p.skip(b + 1);
        assert forall|k: int| 0 <= k < q.len() implies v.has(#[trigger] q[k]) by {
            if k <= a {
                assert(q[k] == p[k]);
            } else {
                assert(q[k] == p[k - a - 1 + b + 1]);
            }
        }
        assert forall|k: int| 0 <= k < q.len() - 1 implies v.children_of(#[trigger] q[k]).contains(q[k + 1]) by {
            if k < a {
                assert(q[k] == p[k] && q[k + 1] == p[k + 1]);
            } else if k == a {
                assert(q[k] == p[b] && q[k + 1] == p[b + 1]);
            } else {
                assert(q[k] == p[k + b - a] && q[k + 1] == p[k + 1 + b - a]);
            }
        }
        assert(is_down_path(v, q));
        assert(q[0] == p[0]);
        if b + 1 < p.len() {
            assert(q.last() == p.last());
        } else {
            assert(q.last() == p[a]);
        }
        lemma_short_path(v, q);
    }
}

/// The breadth-first order below `x` holds exactly the nodes that `x`
/// reaches along child edges.
pub proof fn lemma_bfs_reaches<D, P, C>(v: ArenaView<D, P, C>, x: NodeIdx, y: NodeIdx)
    requires
        v.linked(),
        v.has(x),
    ensures
        v.bfs_from(x).contains(y) <==> reaches(v, x, y),
{
    if v.bfs_from(x).contains(y) {
        lemma_layers_sound(v, seq![x], v.nodes.len(), y);
        let (k, p) = choose|k: int, p: Seq<NodeIdx>|
            #![trigger is_down_path(v, p), seq![x][k]]
            0 <= k < 1 && is_down_path(v, p) && p[0] == seq![x][k] && p.last() == y;
        assert(is_down_path(v, p) && p[0] == x && p.last() == y);
    }
    if reaches(v, x, y) {
        let p = choose|p: Seq<NodeIdx>| #[trigger] is_down_path(v, p) && p[0] == x && p.last() == y;
        lemma_short_path(v, p);
        let q = choose|q: Seq<NodeIdx>| #[trigger] is_down_path(v, q) && q[0] == p[0] && q.last() == p.last() && q.len()
            <= v.nodes.len();
        assert(seq![x][0] == q[0]);
        lemma_layers_complete(v, seq![x], v.nodes.len(), q);
    }
}

/// Every node of the breadth-first order below an allocated node is
/// allocated.
pub proof fn lemma_bfs_in_range<D, P, C>(v: ArenaView<D, P, C>, x: NodeIdx)
    requires
        v.linked(),
        v.has(x),
    ensures
        forall|k: int| 0 <= k < v.bfs_from(x).len() ==> v.has(#[trigger] v.bfs_from(x)[k]),
{
    lemma_layers_in_range(v, seq![x], false, v.nodes.len());
}

/// Every node of the pre-order below an allocated node is allocated.
pub proof fn lemma_preorder_in_range<D, P, C>(v: ArenaView<D, P, C>, x: NodeIdx)
    requires
        v.linked(),
        v.has(x),
    ensures
        forall|k: int| 0 <= k < v.preorder(x).len() ==> v.has(#[trigger] v.preorder(x)[k]),
{
    lemma_dfs_in_range(v, x, v.nodes.len());
}

proof fn lemma_dfs_in_range<D, P, C>(v: ArenaView<D, P, C>, x: NodeIdx, fuel: nat)
    requires
        v.linked(),
        v.has(x),
    ensures
        forall|k: int| 0 <= k < v.dfs_from(x, fuel).len() ==> v.has(#[trigger] v.dfs_from(x, fuel)[k]),
    decreases fuel, 0nat,
{
    if fuel > 0 {
        let cs = v.children_of(x);
        assert forall|k: int| 0 <= k < cs.len() implies v.has(#[trigger] cs[k]) by {
            assert(cs[k] == v.node(x).children[k].0);
        }
        lemma_dfs_list_in_range(v, cs, (fuel - 1) as nat);
        let s = v.dfs_from(x, fuel);
        assert forall|k: int| 0 <= k < s.len() implies v.has(#[trigger] s[k]) by {
            if k > 0 {
                assert(s[k] == v.dfs_list(cs, (fuel - 1) as nat)[k - 1]);
            }
        }
    }
}

proof fn lemma_dfs_list_in_range<D, P, C>(v: ArenaView<D, P, C>, xs: Seq<NodeIdx>, fuel: nat)
    requires
        v.linked(),
        forall|k: int| 0 <= k < xs.len() ==> v.has(#[trigger] xs[k]),
    ensures
        forall|k: int| 0 <= k < v.dfs_list(xs, fuel).len() ==> v.has(#[trigger] v.dfs_list(xs, fuel)[k]),
    decreases fuel, xs.len(),
{
    if xs.len() > 0 {
        assert(v.has(xs[0]));
        lemma_dfs_in_range(v, xs[0], fuel);
        let t = xs.drop_first();
        assert forall|k: int| 0 <= k < t.len() implies v.has(#[trigger] t[k]) by {
            assert(t[k] == xs[k + 1]);
        }
        lemma_dfs_list_in_range(v, t, fuel);
        let a = v.dfs_from(xs[0], fuel);
        let s = v.dfs_list(xs, fuel);
        assert forall|k: int| 0 <= k < s.len() implies v.has(#[trigger] s[k]) by {
            if k < a.len() {
                assert(s[k] == a[k]);
            } else {
                assert(s[k] == v.dfs_list(t, fuel)[k - a.len()]);
            }
        }
    }
}

/// Replacing the data of a node keeps an arena well-formed.
pub proof fn lemma_wf_with_data<D, P, C>(v: ArenaView<D, P, C>, x: NodeIdx, d: D)
    requires
        v.wf(),
        v.has(x),
    ensures
        v.with_data(x, d).wf(),
{
    let w = v.with_data(x, d);
    assert forall|k: int| 0 <= k < w.garbage.len() implies w.has(#[trigger] w.garbage[k]) by {
        assert(v.has(v.garbage[k]));
    }
    lemma_wf_same_shape(v, w);
}

/// Well-formedness depends on the data of no node.
proof fn lemma_wf_same_shape<D, P, C>(v: ArenaView<D, P, C>, w: ArenaView<D, P, C>)
    requires
        v.wf(),
        w.nodes.len() == v.nodes.len(),
        forall|i: int|
            0 <= i < v.nodes.len() ==> (#[trigger] w.nodes[i]).idx == v.nodes[i].idx
                && w.nodes[i].parents == v.nodes[i].parents && w.nodes[i].children
                == v.nodes[i].children,
        forall|k: int| 0 <= k < w.garbage.len() ==> w.has(#[trigger] w.garbage[k]),
        w.garbage.no_duplicates(),
    ensures
        w.wf(),
{
    assert forall|i: int, k: int|
        0 <= i < w.nodes.len() && 0 <= k < w.nodes[i].children.len() implies w.has(
        #[trigger] w.nodes[i].children[k].0,
    ) by {
        assert(w.nodes[i].children == v.nodes[i].children);
    }
    assert forall|i: int, k: int|
        0 <= i < w.nodes.len() && 0 <= k < w.nodes[i].parents.len() implies w.has(
        #[trigger] w.nodes[i].parents[k].0,
    ) by {
        assert(w.nodes[i].parents == v.nodes[i].parents);
    }
    assert forall|p: int, c: int|
        0 <= p < w.nodes.len() && 0 <= c < w.nodes.len() implies #[trigger] w.balanced(p, c) by {
        assert(v.balanced(p, c));
        assert(w.nodes[p].children == v.nodes[p].children);
        assert(w.nodes[c].parents == v.nodes[c].parents);
    }
}

/// A slot outside of the arena is pointed at by no edge of it.
proof fn lemma_count_zero_of_absent<D, P, C, T>(
    s: Seq<(NodeIdx, T)>,
    x: NodeIdx,
    v: ArenaView<D, P, C>,
)
    requires
        !v.has(x),
        forall|k: int| 0 <= k < s.len() ==> v.has(#[trigger] s[k].0),
    ensures
        count_of(s, x) == 0,
    decreases s.len(),
{
    if s.len() > 0 {
        let t = s.drop_first();
        assert(v.has(s[0].0));
        assert forall|k: int| 0 <= k < t.len() implies v.has(#[trigger] t[k].0) by {
            assert(t[k] == s[k + 1]);
        }
        lemma_count_zero_of_absent(t, x, v);
    }
}

/// The nodes that depth-first events enter are the pre-order: the `Pre`
/// events of `dfs_base` are exactly the nodes that `dfs_pre` yields.
pub proof fn lemma_pre_events<D, P, C>(v: ArenaView<D, P, C>, x: NodeIdx, fuel: nat)
    ensures
        visits(v.events_from(x, fuel), TraversalType::Pre) == v.dfs_from(x, fuel),
    decreases fuel, 0int,
{
    if fuel > 0 {
        let g = (fuel - 1) as nat;
        let cs = v.children_of(x);
        lemma_pre_events_after(v, x, 0, g);
        assert(cs.subrange(0, cs.len() as int) =~= cs);
        let pre = seq![(TraversalType::Pre, x)];
        let post = seq![(TraversalType::Post, x)];
        lemma_visits_concat(pre + v.events_after(x, 0, g), post, TraversalType::Pre);
        lemma_visits_concat(pre, v.events_after(x, 0, g), TraversalType::Pre);
        lemma_visits_single((TraversalType::Pre, x), TraversalType::Pre);
        lemma_visits_single((TraversalType::Post, x), TraversalType::Pre);
        assert(visits(v.events_from(x, fuel), TraversalType::Pre) =~= v.dfs_from(x, fuel));
    }
}

proof fn lemma_pre_events_after<D, P, C>(v: ArenaView<D, P, C>, x: NodeIdx, k: nat, fuel: nat)
    ensures
        k <= v.children_of(x).len() ==> visits(v.events_after(x, k, fuel), TraversalType::Pre)
            == v.dfs_list(v.children_of(x).subrange(k as int, v.children_of(x).len() as int), fuel),
    decreases fuel, v.children_of(x).len() - k,
{
    let cs = v.children_of(x);
    if k < cs.len() {
        lemma_pre_events(v, cs[k as int], fuel);
        lemma_pre_events_after(v, x, k + 1, fuel);
        let inter = if k > 0 {
            seq![(TraversalType::Interspersed, x)]
        } else {
            Seq::<(TraversalType, NodeIdx)>::empty()
        };
        lemma_visits_concat(inter + v.events_from(cs[k as int], fuel), v.events_after(x, k + 1, fuel), TraversalType::Pre);
        lemma_visits_concat(inter, v.events_from(cs[k as int], fuel), TraversalType::Pre);
        if k > 0 {
            lemma_visits_single((TraversalType::Interspersed, x), TraversalType::Pre);
        } else {
            assert(visits(inter, TraversalType::Pre) =~= Seq::<NodeIdx>::empty());
        }
        let xs = cs.subrange(k as int, cs.len() as int);
        assert(xs[0] == cs[k as int]);
        assert(xs.drop_first() =~= cs.subrange(k as int + 1, cs.len() as int));
        assert(visits(v.events_after(x, k, fuel), TraversalType::Pre) =~= v.dfs_list(xs, fuel));
    } else if k == cs.len() {
        assert(cs.subrange(k as int, cs.len() as int) =~= Seq::<NodeIdx>::empty());
    }
}

/// The leftmost entry for `x` in `s` pushed with an entry for `x` when `s`
/// has none is the pushed one.
proof fn lemma_first_index_push_new<T>(s: Seq<(NodeIdx, T)>, e: (NodeIdx, T))
    requires
        count_of(s, e.0) == 0,
    ensures
        first_index(s.push(e), e.0) == s.len(),
        remove_first(s.push(e), e.0) == s,
    decreases s.len(),
{
    lemma_first_index_bounds(s, e.0);
    if s.len() > 0 {
        let t = s.drop_first();
        assert(s[0].0 != e.0);
        assert(count_of(t, e.0) == 0);
        lemma_first_index_push_new(t, e);
        assert(s.push(e).drop_first() =~= t.push(e));
    }
    assert(s.push(e).remove(s.len() as int) =~= s);
}

/// Adding an edge that did not exist and removing it again gives the arena
/// back: removing an edge undoes adding it.  The removal finds the data
/// that the addition stored on both ends.
pub proof fn lemma_link_unlink<D, P, C>(v: ArenaView<D, P, C>, p: NodeIdx, c: NodeIdx, pdata: P, cdata: C)
    requires
        v.wf(),
        v.has(p),
        v.has(c),
        !v.has_edge(p, c),
    ensures
        v.link(p, c, pdata, cdata).unlink(p, c) == v,
        v.link(p, c, pdata, cdata).has_edge(p, c),
        v.link(p, c, pdata, cdata).node(p).children[first_index(v.link(p, c, pdata, cdata).node(p).children, c)].1
            == cdata,
        v.link(p, c, pdata, cdata).node(c).parents[first_index(v.link(p, c, pdata, cdata).node(c).parents, p)].1
            == pdata,
{
    let w = v.link(p, c, pdata, cdata);
    let cs = v.node(p).children;
    assert(v.balanced(p.id(), c.id()));
    assert(NodeIdx(p.id() as usize) == p);
    assert(NodeIdx(c.id() as usize) == c);
    assert(v.nodes[p.id()] == v.node(p));
    assert(v.nodes[c.id()] == v.node(c));
    assert(count_of(cs, c) == 0);
    lemma_first_index_push_new(cs, (c, cdata));
    let v1 = v.with_children(p, cs.push((c, cdata)));
    let ps = v1.node(c).parents;
    assert(ps == v.node(c).parents);
    assert(count_of(ps, p) == 0);
    lemma_first_index_push_new(ps, (p, pdata));
    lemma_count_push(cs, (c, cdata), c);
    assert(w.node(p).children == cs.push((c, cdata)));
    assert(w.node(c).parents == ps.push((p, pdata)));
    let u = w.unlink(p, c);
    assert(u.nodes =~= v.nodes);
    assert(u =~= v);
}

/// Taking a node adds one to the logical size, whether it is recycled from
/// the garbage queue or newly appended.
pub proof fn lemma_allocate_logical_size<D, P, C>(v: ArenaView<D, P, C>, data: D)
    requires
        v.wf(),
        v.garbage.len() <= v.nodes.len(),
    ensures
        v.allocate(data).0.garbage.len() <= v.allocate(data).0.nodes.len(),
        v.allocate(data).0.nodes.len() - v.allocate(data).0.garbage.len() == v.nodes.len()
            - v.garbage.len() + 1,
        v.allocate(data).0.node(v.allocate(data).1).data == data,
{
    if v.garbage.len() > 0 {
        assert(v.has(v.garbage[0]));
    }
}

/// Recycling `x` orphans every node below it (`x` included), queues each
/// of them as garbage, and leaves no node with a child among them.
pub proof fn lemma_recycle_orphans<D, P, C>(v: ArenaView<D, P, C>, x: NodeIdx)
    requires
        v.wf(),
        v.has(x),
    ensures
        v.recycle(x).garbage.take(v.garbage.len() as int) == v.garbage,
        forall|k: int|
            0 <= k < v.preorder(x).len() ==> {
                let y = #[trigger] v.preorder(x)[k];
                &&& v.recycle(x).node(y).parents.len() == 0
                &&& v.recycle(x).garbage.contains(y)
            },
        forall|z: NodeIdx, j: int|
            v.has(z) && 0 <= j < v.recycle(x).node(z).children.len() ==> !v.preorder(x).contains(
                #[trigger] v.recycle(x).node(z).children[j].0,
            ),
{
    let order = v.preorder(x);
    let gone = members(order);
    let w = v.recycle(x);
    lemma_preorder_in_range(v, x);
    lemma_enqueue(v.garbage, order.reverse());
    assert forall|k: int| 0 <= k < order.len() implies {
        let y = #[trigger] order[k];
        &&& w.node(y).parents.len() == 0
        &&& w.garbage.contains(y)
    } by {
        let y = order[k];
        assert(v.has(y));
        assert(gone.contains(y));
        assert(NodeIdx(y.id() as usize) == y);
        assert(order.reverse()[order.len() - 1 - k] == y);
    }
    assert forall|z: NodeIdx, j: int|
        v.has(z) && 0 <= j < w.node(z).children.len() implies !order.contains(
            #[trigger] w.node(z).children[j].0,
        ) by {
        assert(w.node(z).children == without(v.node(z).children, gone));
        lemma_without_members(v.node(z).children, gone, j);
    }
}

/// Every node of `xs` is visited by the pre-order traversals below them,
/// when there is fuel for at least one level.
proof fn lemma_dfs_list_heads<D, P, C>(v: ArenaView<D, P, C>, xs: Seq<NodeIdx>, fuel: nat)
    requires
        fuel > 0,
    ensures
        forall|k: int| 0 <= k < xs.len() ==> v.dfs_list(xs, fuel).contains(#[trigger] xs[k]),
    decreases xs.len(),
{
    if xs.len() > 0 {
        let rest = xs.drop_first();
        lemma_dfs_list_heads(v, rest, fuel);
        let head = v.dfs_from(xs[0], fuel);
        assert(head[0] == xs[0]);
        assert(v.dfs_list(xs, fuel) == head + v.dfs_list(rest, fuel));
        assert forall|k: int| 0 <= k < xs.len() implies v.dfs_list(xs, fuel).contains(#[trigger] xs[k]) by {
            if k == 0 {
                assert(v.dfs_list(xs, fuel)[0] == xs[0]);
            } else {
                assert(rest[k - 1] == xs[k]);
                let l = v.dfs_list(rest, fuel);
                assert(l.contains(rest[k - 1]));
                let j = choose|j: int| 0 <= j < l.len() && l[j] == xs[k];
                assert(v.dfs_list(xs, fuel)[head.len() + j] == xs[k]);
            }
        }
    }
}

/// Leaving out `gone` leaves nothing of `s` when every entry of `s` points
/// into `gone`.
proof fn lemma_without_all<T>(s: Seq<(NodeIdx, T)>, gone: Set<NodeIdx>)
    requires
        forall|k: int| 0 <= k < s.len() ==> gone.contains(#[trigger] s[k].0),
    ensures
        without(s, gone).len() == 0,
{
    if without(s, gone).len() > 0 {
        lemma_without_members(s, gone, 0);
        let e = without(s, gone)[0];
        let j = choose|j: int| 0 <= j < s.len() && s[j] == e;
        assert(gone.contains(s[j].0));
    }
}

/// One step of `rm_orphan_node` keeps the slots, keeps every removed node
/// removed, and removes the node it visits when that node has no parents.
proof fn lemma_orphan_step_removes<D, P, C>(w: ArenaView<D, P, C>, x: NodeIdx, y: NodeIdx)
    requires
        w.has(x),
        w.has(y),
    ensures
        w.orphan_sweep(seq![x]).nodes.len() == w.nodes.len(),
        w.is_removed(y) ==> w.orphan_sweep(seq![x]).is_removed(y),
        w.node(x).parents.len() == 0 ==> w.orphan_sweep(seq![x]).is_removed(x),
{
    assert(seq![x].drop_last() =~= Seq::<NodeIdx>::empty());
    assert(seq![x].last() == x);
    assert(w.orphan_sweep(Seq::<NodeIdx>::empty()) == w);
    if w.node(x).parents.len() == 0 {
        let a = w.unparent(set![x]);
        assert(NodeIdx(x.id() as usize) == x);
        assert(NodeIdx(y.id() as usize) == y);
        lemma_enqueue_one(w.garbage, x);
        assert(a.node(x).parents == without(w.node(x).parents, set![x]));
        assert(a.node(y).parents == without(w.node(y).parents, set![x]));
    }
}

/// Every node that `rm_orphan_node` removes ends removed: each node of
/// `xs` that has no parents left when the sweep visits it has neither
/// parents nor children afterwards and is queued as garbage.
pub proof fn lemma_orphan_sweep_removes<D, P, C>(v: ArenaView<D, P, C>, xs: Seq<NodeIdx>)
    requires
        forall|k: int| 0 <= k < xs.len() ==> v.has(#[trigger] xs[k]),
    ensures
        v.orphan_sweep(xs).nodes.len() == v.nodes.len(),
        forall|k: int|
            0 <= k < xs.len() && v.orphan_sweep(xs.take(k)).node(xs[k]).parents.len() == 0
                ==> v.orphan_sweep(xs).is_removed(#[trigger] xs[k]),
    decreases xs.len(),
{
    if xs.len() > 0 {
        let t = xs.drop_last();
        let n = xs.len() - 1;
        assert forall|k: int| 0 <= k < t.len() implies v.has(#[trigger] t[k]) by {
            assert(t[k] == xs[k]);
        }
        lemma_orphan_sweep_removes(v, t);
        let x = xs.last();
        assert(xs[n] == x);
        assert(xs.take(n) =~= t);
        lemma_orphan_sweep_last(v, xs);
        assert forall|k: int|
            0 <= k < xs.len() && v.orphan_sweep(xs.take(k)).node(xs[k]).parents.len() == 0
                implies v.orphan_sweep(xs).is_removed(#[trigger] xs[k]) by {
            lemma_orphan_step_removes(v.orphan_sweep(t), x, xs[k]);
            if k < n {
                assert(t[k] == xs[k]);
                assert(t.take(k) =~= xs.take(k));
            }
        }
        lemma_orphan_step_removes(v.orphan_sweep(t), x, x);
    }
}

/// The orphan sweep over `xs` is the sweep over all but its last node,
/// followed by the sweep over that node.
proof fn lemma_orphan_sweep_last<D, P, C>(v: ArenaView<D, P, C>, xs: Seq<NodeIdx>)
    requires
        xs.len() > 0,
    ensures
        v.orphan_sweep(xs) == v.orphan_sweep(xs.drop_last()).orphan_sweep(seq![xs.last()]),
{
    let w = v.orphan_sweep(xs.drop_last());
    let x = xs.last();
    assert(seq![x].drop_last() =~= Seq::<NodeIdx>::empty());
    assert(seq![x].last() == x);
    assert(w.orphan_sweep(Seq::<NodeIdx>::empty()) == w);
}

/// Leaving entries out never makes a list longer.
proof fn lemma_without_len<T>(s: Seq<(NodeIdx, T)>, gone: Set<NodeIdx>)
    ensures
        without(s, gone).len() <= s.len(),
    decreases s.len(),
{
    if s.len() > 0 {
        lemma_without_len(s.drop_first(), gone);
    }
}

/// Removing the leftmost entry for `x` never makes a list longer.
proof fn lemma_remove_first_len<T>(s: Seq<(NodeIdx, T)>, x: NodeIdx)
    ensures
        remove_first(s, x).len() <= s.len(),
{
    lemma_first_index_bounds(s, x);
}

/// Taking a node keeps garbage slots without edges, and the node taken has
/// none either.
pub proof fn lemma_allocate_clean<D, P, C>(v: ArenaView<D, P, C>, data: D)
    requires
        v.wf(),
        v.garbage_clean(),
    ensures
        v.allocate(data).0.garbage_clean(),
        v.allocate(data).0.node(v.allocate(data).1).parents.len() == 0,
        v.allocate(data).0.node(v.allocate(data).1).children.len() == 0,
        forall|y: NodeIdx| #[trigger] v.allocate(data).0.garbage.contains(y) ==> v.garbage.contains(y),
        !v.allocate(data).0.garbage.contains(v.allocate(data).1),
{
    let (w, x) = v.allocate(data);
    if v.garbage.len() > 0 {
        assert(v.garbage[0] == x);
        assert forall|k: int| 0 <= k < w.garbage.len() implies w.node(#[trigger] w.garbage[k]).parents.len() == 0
            && w.node(w.garbage[k]).children.len() == 0 by {
            assert(w.garbage[k] == v.garbage[k + 1]);
        }
        assert forall|y: NodeIdx| #[trigger] w.garbage.contains(y) implies v.garbage.contains(y) by {
            let k = choose|k: int| 0 <= k < w.garbage.len() && w.garbage[k] == y;
            assert(v.garbage[k + 1] == y);
        }
        if w.garbage.contains(x) {
            let k = choose|k: int| 0 <= k < w.garbage.len() && w.garbage[k] == x;
            assert(v.garbage[k + 1] == v.garbage[0]);
        }
    } else {
        assert(w.node(x) == w.nodes[v.nodes.len() as int]);
    }
}

/// Adding an edge between two slots that are not garbage keeps garbage
/// slots without edges.
pub proof fn lemma_link_clean<D, P, C>(v: ArenaView<D, P, C>, p: NodeIdx, c: NodeIdx, pdata: P, cdata: C)
    requires
        v.wf(),
        v.has(p),
        v.has(c),
        v.garbage_clean(),
        !v.garbage.contains(p),
        !v.garbage.contains(c),
    ensures
        v.link(p, c, pdata, cdata).garbage_clean(),
{
    let w = v.link(p, c, pdata, cdata);
    assert forall|k: int| 0 <= k < w.garbage.len() implies w.node(#[trigger] w.garbage[k]).parents.len() == 0
        && w.node(w.garbage[k]).children.len() == 0 by {
        let g = w.garbage[k];
        assert(v.garbage[k] == g);
        assert(v.has(v.garbage[k]));
        assert(v.node(v.garbage[k]).parents.len() == 0);
        assert(g != p && g != c);
        assert(g.id() != p.id() && g.id() != c.id());
    }
}

/// Removing an edge keeps garbage slots without edges.
pub proof fn lemma_unlink_clean<D, P, C>(v: ArenaView<D, P, C>, p: NodeIdx, c: NodeIdx)
    requires
        v.wf(),
        v.has(p),
        v.has(c),
        v.garbage_clean(),
    ensures
        v.unlink(p, c).garbage_clean(),
{
    let w = v.unlink(p, c);
    lemma_remove_first_len(v.node(p).children, c);
    let v1 = v.with_children(p, remove_first(v.node(p).children, c));
    lemma_remove_first_len(v1.node(c).parents, p);
    assert forall|k: int| 0 <= k < w.garbage.len() implies w.node(#[trigger] w.garbage[k]).parents.len() == 0
        && w.node(w.garbage[k]).children.len() == 0 by {
        let g = w.garbage[k];
        assert(v.garbage[k] == g);
        assert(v.has(v.garbage[k]));
        assert(v.node(v.garbage[k]).parents.len() == 0);
    }
}

/// Recycling a node keeps garbage slots without edges.
pub proof fn lemma_recycle_clean<D, P, C>(v: ArenaView<D, P, C>, x: NodeIdx)
    requires
        v.wf(),
        v.has(x),
        v.garbage_clean(),
    ensures
        v.recycle(x).garbage_clean(),
{
    let order = v.preorder(x);
    let gone = members(order);
    let w = v.recycle(x);
    lemma_recycle_removes_all(v, x);
    lemma_enqueue(v.garbage, order.reverse());
    assert forall|k: int| 0 <= k < w.garbage.len() implies w.node(#[trigger] w.garbage[k]).parents.len() == 0
        && w.node(w.garbage[k]).children.len() == 0 by {
        let g = w.garbage[k];
        assert(w.garbage.contains(g));
        if order.reverse().contains(g) {
            let j = choose|j: int| 0 <= j < order.reverse().len() && order.reverse()[j] == g;
            assert(order[order.len() - 1 - j] == g);
            assert(w.is_removed(order[order.len() - 1 - j]));
        } else {
            let m = choose|m: int| 0 <= m < v.garbage.len() && v.garbage[m] == g;
            assert(v.has(v.garbage[m]));
            assert(NodeIdx(g.id() as usize) == g);
            assert(v.node(v.garbage[m]).parents.len() == 0);
            lemma_without_len(v.node(g).children, gone);
        }
    }
}

/// Recycling a node without children queues that node alone, unless it is
/// queued already.
pub proof fn lemma_recycle_leaf<D, P, C>(v: ArenaView<D, P, C>, x: NodeIdx)
    requires
        v.has(x),
        v.node(x).children.len() == 0,
    ensures
        v.recycle(x).garbage == enqueue_one(v.garbage, x),
{
    let n = v.nodes.len();
    assert(v.children_of(x) =~= Seq::<NodeIdx>::empty());
    assert(v.preorder(x) == seq![x] + v.dfs_list(v.children_of(x), (n - 1) as nat));
    assert(v.preorder(x) =~= seq![x]);
    assert(seq![x].reverse() =~= seq![x]);
    assert(seq![x].drop_last() =~= Seq::<NodeIdx>::empty());
    assert(seq![x].last() == x);
    assert(enqueue(v.garbage, Seq::<NodeIdx>::empty()) == v.garbage);
}

/// Every node that a node of an arena lists as a child lists that node as
/// a parent.
proof fn lemma_child_has_parent<D, P, C>(v: ArenaView<D, P, C>, z: NodeIdx, y: NodeIdx)
    requires
        v.wf(),
        v.has(z),
        v.children_of(z).contains(y),
    ensures
        v.has(y),
        v.node(y).parents.len() > 0,
{
    let c = choose|c: int| 0 <= c < v.children_of(z).len() && v.children_of(z)[c] == y;
    lemma_idxs_of_index(v.node(z).children, c);
    assert(v.has(v.nodes[z.id()].children[c].0));
    crate::seqs::lemma_count_positive(v.node(z).children, c);
    assert(NodeIdx(z.id() as usize) == z);
    assert(NodeIdx(y.id() as usize) == y);
    assert(v.balanced(z.id(), y.id()));
    if v.node(y).parents.len() == 0 {
        assert(count_of(v.node(y).parents, z) == 0);
    }
}

/// The first `k` steps of `rm_orphan_node` on a node that has a parent
/// change nothing.
proof fn lemma_orphan_prefix_of_owned<D, P, C>(v: ArenaView<D, P, C>, x: NodeIdx, k: int)
    requires
        v.wf(),
        v.has(x),
        v.node(x).parents.len() > 0,
        0 <= k <= v.preorder(x).len(),
    ensures
        v.orphan_sweep(v.preorder(x).take(k)) == v,
    decreases k,
{
    let ord = v.preorder(x);
    if k == 0 {
        assert(ord.take(0) =~= Seq::<NodeIdx>::empty());
    } else {
        lemma_orphan_prefix_of_owned(v, x, k - 1);
        lemma_preorder_follows(v, x);
        lemma_preorder_in_range(v, x);
        let y = ord[k - 1];
        assert(ord.take(k).drop_last() =~= ord.take(k - 1));
        assert(ord.take(k).last() == y);
        if y != x {
            let j = choose|j: int| 0 <= j < k - 1 && v.children_of(ord[j]).contains(ord[k - 1]);
            assert(v.has(ord[j]));
            lemma_child_has_parent(v, ord[j], y);
        }
    }
}

/// `rm_orphan_node` on a node that has a parent changes nothing: the node
/// keeps its parents, so nothing below it is ever orphaned.
pub proof fn lemma_orphan_sweep_of_owned<D, P, C>(v: ArenaView<D, P, C>, x: NodeIdx)
    requires
        v.wf(),
        v.has(x),
        v.node(x).parents.len() > 0,
    ensures
        v.orphan_sweep(v.preorder(x)) == v,
{
    let ord = v.preorder(x);
    lemma_orphan_prefix_of_owned(v, x, ord.len() as int);
    assert(ord.take(ord.len() as int) =~= ord);
}

/// What `rm_node(x)` does to the nodes it does not remove: their parents
/// and data stay, and they lose the children that it removes.  When the
/// nodes below `x` form a tree (each but `x` with exactly one parent), that
/// is `x` alone.  When the pre-order below `x` has no repeats and none of it
/// is garbage, it is appended to the garbage queue in reverse.
pub proof fn lemma_recycle_others<D, P, C>(v: ArenaView<D, P, C>, x: NodeIdx)
    requires
        v.wf(),
        v.has(x),
    ensures
        forall|z: NodeIdx|
            #![trigger v.recycle(x).node(z)]
            v.has(z) && !v.preorder(x).contains(z) ==> {
                &&& v.recycle(x).node(z).parents == v.node(z).parents
                &&& v.recycle(x).node(z).data == v.node(z).data
                &&& v.recycle(x).node(z).children == without(v.node(z).children, members(v.preorder(x)))
            },
        (forall|i: int|
            0 <= i < v.preorder(x).len() && #[trigger] v.preorder(x)[i] != x ==> v.node(v.preorder(x)[i]).parents.len()
                == 1) ==> forall|z: NodeIdx|
            #![trigger v.recycle(x).node(z)]
            v.has(z) && !v.preorder(x).contains(z) ==> v.recycle(x).node(z).children == without(
                v.node(z).children,
                set![x],
            ),
        (v.preorder(x).no_duplicates() && forall|i: int|
            0 <= i < v.preorder(x).len() ==> !v.garbage.contains(#[trigger] v.preorder(x)[i])) ==> v.recycle(
            x,
        ).garbage == v.garbage + v.preorder(x).reverse(),
{
    let ord = v.preorder(x);
    let gone = members(ord);
    let w = v.recycle(x);
    assert forall|z: NodeIdx| #![trigger w.node(z)] v.has(z) && !ord.contains(z) implies {
        &&& w.node(z).parents == v.node(z).parents
        &&& w.node(z).data == v.node(z).data
        &&& w.node(z).children == without(v.node(z).children, gone)
    } by {
        assert(NodeIdx(z.id() as usize) == z);
    }
    if forall|i: int| 0 <= i < ord.len() && #[trigger] ord[i] != x ==> v.node(ord[i]).parents.len() == 1 {
        lemma_preorder_follows(v, x);
        lemma_preorder_in_range(v, x);
        assert forall|z: NodeIdx| #![trigger w.node(z)] v.has(z) && !ord.contains(z) implies w.node(z).children
            == without(v.node(z).children, set![x]) by {
            assert(NodeIdx(z.id() as usize) == z);
            let cs = v.node(z).children;
            assert forall|k: int| 0 <= k < cs.len() implies (gone.contains(#[trigger] cs[k].0) <==> set![x].contains(
                cs[k].0,
            )) by {
                let c = cs[k].0;
                assert(ord[0] == x);
                if gone.contains(c) && c != x {
                    let i = choose|i: int| 0 <= i < ord.len() && ord[i] == c;
                    let j = choose|j: int| 0 <= j < i && v.children_of(ord[j]).contains(ord[i]);
                    assert(v.has(ord[j]));
                    assert(v.node(c).parents.len() == 1);
                    let m = choose|m: int| 0 <= m < v.children_of(ord[j]).len() && v.children_of(ord[j])[m] == c;
                    lemma_idxs_of_index(v.node(ord[j]).children, m);
                    crate::seqs::lemma_count_positive(v.node(ord[j]).children, m);
                    crate::seqs::lemma_count_positive(cs, k);
                    assert(NodeIdx(c.id() as usize) == c);
                    assert(NodeIdx(ord[j].id() as usize) == ord[j]);
                    assert(v.has(c));
                    assert(v.balanced(ord[j].id(), c.id()));
                    assert(v.balanced(z.id(), c.id()));
                    lemma_first_index_bounds(v.node(c).parents, z);
                    lemma_first_index_bounds(v.node(c).parents, ord[j]);
                    assert(z == ord[j]);
                    assert(ord.contains(z));
                }
                if c == x {
                    assert(ord.contains(x));
                }
            }
            crate::seqs::lemma_without_agree(cs, gone, set![x]);
        }
    }
    if ord.no_duplicates() && forall|i: int| 0 <= i < ord.len() ==> !v.garbage.contains(#[trigger] ord[i]) {
        let r = ord.reverse();
        assert forall|k: int| 0 <= k < r.len() implies !v.garbage.contains(#[trigger] r[k]) by {
            assert(r[k] == ord[ord.len() - 1 - k]);
        }
        assert forall|a: int, b: int| 0 <= a < r.len() && 0 <= b < r.len() && a != b implies r[a] != r[b] by {
            assert(r[a] == ord[ord.len() - 1 - a] && r[b] == ord[ord.len() - 1 - b]);
        }
        crate::seqs::lemma_enqueue_fresh(v.garbage, r);
    }
}

/// The pre-order below `x` is closed under children: every child of a node
/// it visits is visited too.
pub proof fn lemma_preorder_closed<D, P, C>(v: ArenaView<D, P, C>, x: NodeIdx, y: NodeIdx, c: NodeIdx)
    requires
        v.wf(),
        v.has(x),
        v.preorder(x).contains(y),
        v.children_of(y).contains(c),
    ensures
        v.preorder(x).contains(c),
{
    assert(v.linked());
    lemma_preorder_in_range(v, x);
    let k = choose|k: int| 0 <= k < v.preorder(x).len() && v.preorder(x)[k] == y;
    assert(v.has(v.preorder(x)[k]));
    lemma_dfs_sound(v, x, v.nodes.len(), y);
    let p = choose|p: Seq<NodeIdx>| #[trigger] is_down_path(v, p) && p[0] == x && p.last() == y;
    lemma_child_has_parent(v, y, c);
    let p2 = p.push(c);
    assert forall|i: int| 0 <= i < p2.len() implies v.has(#[trigger] p2[i]) by {
        if i < p.len() {
            assert(p2[i] == p[i]);
        }
    }
    assert forall|i: int| 0 <= i < p2.len() - 1 implies v.children_of(#[trigger] p2[i]).contains(p2[i + 1]) by {
        if i < p.len() - 1 {
            assert(p2[i] == p[i] && p2[i + 1] == p[i + 1]);
        } else {
            assert(p2[i] == y && p2[i + 1] == c);
        }
    }
    assert(is_down_path(v, p2));
    lemma_short_path(v, p2);
    let q = choose|q: Seq<NodeIdx>| #[trigger] is_down_path(v, q) && q[0] == p2[0] && q.last() == p2.last() && q.len()
        <= v.nodes.len();
    lemma_dfs_complete(v, q, v.nodes.len());
}

/// A node outside the pre-order below `x` has no parent in it.
pub proof fn lemma_preorder_parents_outside<D, P, C>(v: ArenaView<D, P, C>, x: NodeIdx, z: NodeIdx)
    requires
        v.wf(),
        v.has(x),
        v.has(z),
        !v.preorder(x).contains(z),
    ensures
        forall|k: int| 0 <= k < v.node(z).parents.len() ==> !v.preorder(x).contains(#[trigger] v.node(z).parents[k].0),
{
    assert forall|k: int| 0 <= k < v.node(z).parents.len() implies !v.preorder(x).contains(
        #[trigger] v.node(z).parents[k].0,
    ) by {
        let y = v.node(z).parents[k].0;
        if v.preorder(x).contains(y) {
            assert(v.has(v.nodes[z.id()].parents[k].0));
            crate::seqs::lemma_count_positive(v.node(z).parents, k);
            assert(NodeIdx(y.id() as usize) == y);
            assert(NodeIdx(z.id() as usize) == z);
            assert(v.balanced(y.id(), z.id()));
            lemma_first_index_bounds(v.node(y).children, z);
            let m = first_index(v.node(y).children, z);
            lemma_idxs_of_index(v.node(y).children, m);
            assert(v.children_of(y)[m] == z);
            lemma_preorder_closed(v, x, y, z);
        }
    }
}

/// `v` has no cycle: no downward path holds more nodes than `v` has slots
/// (a longer one would visit some slot twice).
pub open spec fn acyclic<D, P, C>(v: ArenaView<D, P, C>) -> bool {
    forall|p: Seq<NodeIdx>| #[trigger] is_down_path(v, p) ==> p.len() <= v.nodes.len()
}

/// Every downward path from `x` holds at most `f` nodes.
pub open spec fn depth_within<D, P, C>(v: ArenaView<D, P, C>, x: NodeIdx, f: nat) -> bool {
    forall|p: Seq<NodeIdx>| #[trigger] is_down_path(v, p) && p[0] == x ==> p.len() <= f
}

/// The paths from a child of `x` are one node shorter than paths from `x`.
proof fn lemma_depth_child<D, P, C>(v: ArenaView<D, P, C>, x: NodeIdx, f: nat, k: int)
    requires
        v.linked(),
        v.has(x),
        depth_within(v, x, f),
        0 <= k < v.children_of(x).len(),
        f >= 1,
    ensures
        v.has(v.children_of(x)[k]),
        depth_within(v, v.children_of(x)[k], (f - 1) as nat),
{
    let c = v.children_of(x)[k];
    lemma_idxs_of_index(v.node(x).children, k);
    assert(v.has(v.nodes[x.id()].children[k].0));
    assert forall|q: Seq<NodeIdx>| #[trigger] is_down_path(v, q) && q[0] == c implies q.len() <= f - 1 by {
        let p = seq![x] + q;
        assert forall|i: int| 0 <= i < p.len() implies v.has(#[trigger] p[i]) by {
            if i > 0 {
                assert(p[i] == q[i - 1]);
            }
        }
        assert forall|i: int| 0 <= i < p.len() - 1 implies v.children_of(#[trigger] p[i]).contains(p[i + 1]) by {
            if i == 0 {
                assert(p[1] == q[0]);
                assert(v.children_of(x)[k] == c);
            } else {
                assert(p[i] == q[i - 1] && p[i + 1] == q[i]);
            }
        }
        assert(is_down_path(v, p));
        assert(p[0] == x);
    }
}

/// With more fuel than the longest path from `x` needs, more fuel changes
/// nothing in the pre-order below `x`.
proof fn lemma_dfs_fuel_stable<D, P, C>(v: ArenaView<D, P, C>, x: NodeIdx, f: nat, g: nat)
    requires
        v.linked(),
        v.has(x),
        depth_within(v, x, f),
        f <= g,
    ensures
        v.dfs_from(x, f) == v.dfs_from(x, g),
    decreases f, 0nat,
{
    let single = seq![x];
    assert(is_down_path(v, single));
    assert(single[0] == x);
    let cs = v.children_of(x);
    assert forall|k: int| 0 <= k < cs.len() implies v.has(#[trigger] cs[k]) && depth_within(v, cs[k], (f - 1) as nat) by {
        lemma_depth_child(v, x, f, k);
    }
    lemma_dfs_list_fuel_stable(v, cs, (f - 1) as nat, (g - 1) as nat);
}

/// The pre-orders below the nodes of `xs` are stable under more fuel when
/// the paths from each of them are short enough.
proof fn lemma_dfs_list_fuel_stable<D, P, C>(v: ArenaView<D, P, C>, xs: Seq<NodeIdx>, f: nat, g: nat)
    requires
        v.linked(),
        forall|k: int| 0 <= k < xs.len() ==> v.has(#[trigger] xs[k]) && depth_within(v, xs[k], f),
        f <= g,
    ensures
        v.dfs_list(xs, f) == v.dfs_list(xs, g),
    decreases f, xs.len(),
{
    if xs.len() > 0 {
        assert(v.has(xs[0]) && depth_within(v, xs[0], f));
        lemma_dfs_fuel_stable(v, xs[0], f, g);
        let rest = xs.drop_first();
        assert forall|k: int| 0 <= k < rest.len() implies v.has(#[trigger] rest[k]) && depth_within(v, rest[k], f) by {
            assert(rest[k] == xs[k + 1]);
        }
        lemma_dfs_list_fuel_stable(v, rest, f, g);
    }
}

/// `b` extends `a`: it has at least its slots, and the same nodes in them.
pub open spec fn extends<D, P, C>(b: ArenaView<D, P, C>, a: ArenaView<D, P, C>) -> bool {
    &&& b.nodes.len() >= a.nodes.len()
    &&& forall|i: int| 0 <= i < a.nodes.len() ==> #[trigger] b.nodes[i] == a.nodes[i]
}

/// Traversals below a slot of `a` are the same in an arena that extends it.
proof fn lemma_dfs_extend<D, P, C>(a: ArenaView<D, P, C>, b: ArenaView<D, P, C>, x: NodeIdx, f: nat)
    requires
        a.linked(),
        a.has(x),
        extends(b, a),
    ensures
        b.dfs_from(x, f) == a.dfs_from(x, f),
    decreases f, 0nat,
{
    if f > 0 {
        assert(b.nodes[x.id()] == a.nodes[x.id()]);
        let cs = a.children_of(x);
        assert forall|k: int| 0 <= k < cs.len() implies a.has(#[trigger] cs[k]) by {
            lemma_idxs_of_index(a.node(x).children, k);
            assert(a.has(a.nodes[x.id()].children[k].0));
        }
        lemma_dfs_list_extend(a, b, cs, (f - 1) as nat);
    }
}

/// Traversals below slots of `a` are the same in an arena that extends it.
proof fn lemma_dfs_list_extend<D, P, C>(a: ArenaView<D, P, C>, b: ArenaView<D, P, C>, xs: Seq<NodeIdx>, f: nat)
    requires
        a.linked(),
        forall|k: int| 0 <= k < xs.len() ==> a.has(#[trigger] xs[k]),
        extends(b, a),
    ensures
        b.dfs_list(xs, f) == a.dfs_list(xs, f),
    decreases f, xs.len(),
{
    if xs.len() > 0 {
        assert(a.has(xs[0]));
        lemma_dfs_extend(a, b, xs[0], f);
        let rest = xs.drop_first();
        assert forall|k: int| 0 <= k < rest.len() implies a.has(#[trigger] rest[k]) by {
            assert(rest[k] == xs[k + 1]);
        }
        lemma_dfs_list_extend(a, b, rest, f);
    }
}

/// In an acyclic arena, the pre-order below a slot is the same in an arena
/// that extends it.
pub proof fn lemma_preorder_extend<D, P, C>(a: ArenaView<D, P, C>, b: ArenaView<D, P, C>, x: NodeIdx)
    requires
        a.linked(),
        acyclic(a),
        a.has(x),
        extends(b, a),
    ensures
        b.preorder(x) == a.preorder(x),
{
    lemma_dfs_extend(a, b, x, b.nodes.len());
    assert(depth_within(a, x, a.nodes.len()));
    lemma_dfs_fuel_stable(a, x, a.nodes.len(), b.nodes.len());
}

/// The lockstep walks below slots of an acyclic arena are the same in an
/// arena that extends it, on either side.
pub proof fn lemma_paired_walks_extend<D, P, C>(
    a: ArenaView<D, P, C>,
    b: ArenaView<D, P, C>,
    c: ArenaView<D, P, C>,
    sr: Seq<NodeIdx>,
    or: Seq<NodeIdx>,
)
    requires
        a.linked(),
        acyclic(a),
        extends(b, a),
        sr.len() <= or.len(),
        forall|k: int| 0 <= k < sr.len() ==> a.has(#[trigger] sr[k]),
    ensures
        paired_walks(b, c, sr, or) == paired_walks(a, c, sr, or),
    decreases sr.len(),
{
    if sr.len() > 0 {
        let t = sr.drop_last();
        assert forall|k: int| 0 <= k < t.len() implies a.has(#[trigger] t[k]) by {
            assert(t[k] == sr[k]);
        }
        lemma_paired_walks_extend(a, b, c, t, or);
        lemma_preorder_extend(a, b, sr.last());
    }
}

/// The same, with the extended arena on the second side of the walk.
pub proof fn lemma_paired_walks_extend_other<D, P, C>(
    a: ArenaView<D, P, C>,
    b: ArenaView<D, P, C>,
    c: ArenaView<D, P, C>,
    sr: Seq<NodeIdx>,
    or: Seq<NodeIdx>,
)
    requires
        a.linked(),
        acyclic(a),
        extends(b, a),
        sr.len() <= or.len(),
        forall|k: int| 0 <= k < sr.len() ==> a.has(#[trigger] or[k]),
    ensures
        paired_walks(c, b, sr, or) == paired_walks(c, a, sr, or),
    decreases sr.len(),
{
    if sr.len() > 0 {
        let t = sr.drop_last();
        lemma_paired_walks_extend_other(a, b, c, t, or);
        assert(a.has(or[sr.len() - 1]));
        lemma_preorder_extend(a, b, or[sr.len() - 1]);
    }
}

/// Whether a walk agrees is the same in an arena that extends the one it
/// visits, on either side.
pub proof fn lemma_walk_agrees_extend<D: PartialEq, P, C>(
    a: ArenaView<D, P, C>,
    b: ArenaView<D, P, C>,
    c: ArenaView<D, P, C>,
    pairs: Seq<(NodeIdx, NodeIdx)>,
)
    requires
        extends(b, a),
    ensures
        (forall|k: int| 0 <= k < pairs.len() ==> a.has((#[trigger] pairs[k]).0)) ==> walk_agrees(b, c, pairs)
            == walk_agrees(a, c, pairs),
        (forall|k: int| 0 <= k < pairs.len() ==> a.has((#[trigger] pairs[k]).1)) ==> walk_agrees(c, b, pairs)
            == walk_agrees(c, a, pairs),
    decreases pairs.len(),
{
    if pairs.len() > 0 {
        let t = pairs.drop_last();
        lemma_walk_agrees_extend(a, b, c, t);
        let e = pairs[pairs.len() - 1];
        assert(pairs.last() == e);
        if forall|k: int| 0 <= k < pairs.len() ==> a.has((#[trigger] pairs[k]).0) {
            assert forall|k: int| 0 <= k < t.len() implies a.has((#[trigger] t[k]).0) by {
                assert(t[k] == pairs[k]);
            }
            assert(a.has(e.0));
            assert(b.nodes[e.0.id()] == a.nodes[e.0.id()]);
        }
        if forall|k: int| 0 <= k < pairs.len() ==> a.has((#[trigger] pairs[k]).1) {
            assert forall|k: int| 0 <= k < t.len() implies a.has((#[trigger] t[k]).1) by {
                assert(t[k] == pairs[k]);
            }
            assert(a.has(e.1));
            assert(b.nodes[e.1.id()] == a.nodes[e.1.id()]);
        }
    }
}

/// Every pair of a lockstep walk below slots of well-linked arenas pairs
/// slots of them.
pub proof fn lemma_paired_walks_in_range<D, P, C>(
    sv: ArenaView<D, P, C>,
    ov: ArenaView<D, P, C>,
    sr: Seq<NodeIdx>,
    or: Seq<NodeIdx>,
)
    requires
        sv.linked(),
        ov.linked(),
        sr.len() <= or.len(),
        forall|k: int| 0 <= k < sr.len() ==> sv.has(#[trigger] sr[k]),
        forall|k: int| 0 <= k < sr.len() ==> ov.has(#[trigger] or[k]),
    ensures
        forall|k: int|
            0 <= k < paired_walks(sv, ov, sr, or).len() ==> sv.has((#[trigger] paired_walks(sv, ov, sr, or)[k]).0)
                && ov.has(paired_walks(sv, ov, sr, or)[k].1),
    decreases sr.len(),
{
    if sr.len() > 0 {
        let t = sr.drop_last();
        assert forall|k: int| 0 <= k < t.len() implies sv.has(#[trigger] t[k]) by {
            assert(t[k] == sr[k]);
        }
        lemma_paired_walks_in_range(sv, ov, t, or);
        let x = sr[sr.len() - 1];
        let y = or[sr.len() - 1];
        assert(sv.has(x) && ov.has(y));
        lemma_preorder_in_range(sv, x);
        lemma_preorder_in_range(ov, y);
        let w = paired_walks(sv, ov, t, or);
        let z = zip_idxs(sv.preorder(x), ov.preorder(y));
        assert(paired_walks(sv, ov, sr, or) == w + z);
        assert forall|k: int| 0 <= k < (w + z).len() implies sv.has((#[trigger] (w + z)[k]).0) && ov.has(
            (w + z)[k].1,
        ) by {
            if k >= w.len() {
                assert((w + z)[k] == z[k - w.len()]);
                assert(sv.has(sv.preorder(x)[k - w.len()]));
                assert(ov.has(ov.preorder(y)[k - w.len()]));
            } else {
                assert((w + z)[k] == w[k]);
            }
        }
    }
}

/// With no garbage slot to reuse, adding a node and removing it again
/// leaves the arena extended by one slot, without edges, queued as garbage.
pub proof fn lemma_add_then_remove<D, P, C>(v: ArenaView<D, P, C>, d: D)
    requires
        v.wf(),
        v.garbage.len() == 0,
    ensures
        ({
            let (w, x) = v.allocate(d);
            &&& x == NodeIdx(v.nodes.len() as usize)
            &&& extends(w.recycle(x), v)
            &&& w.recycle(x).nodes.len() == v.nodes.len() + 1
            &&& w.recycle(x).garbage == seq![x]
        }),
{
    let (w, x) = v.allocate(d);
    assert(w.has(x));
    assert(w.node(x).children.len() == 0);
    lemma_recycle_leaf(w, x);
    assert(enqueue_one(Seq::<NodeIdx>::empty(), x) =~= seq![x]);
    let u = w.recycle(x);
    let n = w.nodes.len();
    assert(w.children_of(x) =~= Seq::<NodeIdx>::empty());
    assert(w.preorder(x) == seq![x] + w.dfs_list(w.children_of(x), (n - 1) as nat));
    assert(w.preorder(x) =~= seq![x]);
    assert(members(seq![x]) =~= set![x]) by {
        assert(seq![x][0] == x);
    }
    assert forall|i: int| 0 <= i < v.nodes.len() implies #[trigger] u.nodes[i] == v.nodes[i] by {
        assert(w.nodes[i] == v.nodes[i]);
        assert(NodeIdx(i as usize) != x);
        let cs = v.nodes[i].children;
        assert forall|k: int| 0 <= k < cs.len() implies (#[trigger] cs[k]).0 != x by {
            assert(v.has(v.nodes[i].children[k].0));
        }
        lemma_first_index_bounds(cs, x);
        lemma_without_none(cs, x);
    }
}

/// Removing a node a second time changes nothing: once `rm_node(x)` has
/// run, `x` has neither parents nor children and is queued as garbage, and
/// recycling it again leaves the arena as it is.
pub proof fn lemma_recycle_twice<D, P, C>(v: ArenaView<D, P, C>, x: NodeIdx)
    requires
        v.wf(),
        v.has(x),
    ensures
        v.recycle(x).node(x).parents.len() == 0,
        v.recycle(x).node(x).children.len() == 0,
        v.recycle(x).garbage.contains(x),
        v.recycle(x).recycle(x) == v.recycle(x),
{
    let n = v.nodes.len();
    let order = v.preorder(x);
    let gone = members(order);
    let w = v.recycle(x);
    let cs = v.children_of(x);
    lemma_recycle_queues(v, x);
    assert(NodeIdx(x.id() as usize) == x);
    assert(order == seq![x] + v.dfs_list(cs, (n - 1) as nat));
    assert(order[0] == x);
    assert forall|k: int| 0 <= k < v.node(x).children.len() implies gone.contains(
        #[trigger] v.node(x).children[k].0,
    ) by {
        let c = v.node(x).children[k].0;
        assert(cs[k] == c);
        if n > 1 {
            lemma_dfs_list_heads(v, cs, (n - 1) as nat);
            let l = v.dfs_list(cs, (n - 1) as nat);
            assert(l.contains(cs[k]));
            let j = choose|j: int| 0 <= j < l.len() && l[j] == c;
            assert(order[j + 1] == c);
        } else {
            assert(v.has(v.nodes[x.id()].children[k].0));
            assert(c == x);
        }
    }
    lemma_without_all(v.node(x).children, gone);
    assert(w.node(x).children.len() == 0);
    assert(w.node(x).parents.len() == 0);
    assert(w.children_of(x) =~= Seq::<NodeIdx>::empty());
    assert(w.preorder(x) == seq![x] + w.dfs_list(w.children_of(x), (n - 1) as nat));
    assert(w.preorder(x) =~= seq![x]);
    assert(seq![x].reverse() =~= seq![x]);
    assert(seq![x].drop_last() =~= Seq::<NodeIdx>::empty());
    assert(seq![x].last() == x);
    assert(enqueue(w.garbage, Seq::<NodeIdx>::empty()) == w.garbage);
    assert(enqueue(w.garbage, seq![x]) == enqueue_one(w.garbage, x));
    assert(enqueue(w.garbage, seq![x]) == w.garbage);
    assert(members(seq![x]) =~= set![x]) by {
        assert(seq![x][0] == x);
    }
    let u = w.recycle(x);
    assert forall|i: int| 0 <= i < u.nodes.len() implies u.nodes[i] == w.nodes[i] by {
        let y = NodeIdx(i as usize);
        lemma_count_without(v.nodes[i].children, gone, x);
        lemma_without_none(w.nodes[i].children, x);
        if y == x {
            assert(w.nodes[i].parents.len() == 0);
        }
    }
    assert(u =~= w);
}

/// A node that the traversals below the nodes of `xs` visit is visited by
/// the traversal below one of them.
proof fn lemma_dfs_list_member<D, P, C>(v: ArenaView<D, P, C>, xs: Seq<NodeIdx>, fuel: nat, y: NodeIdx)
    requires
        v.dfs_list(xs, fuel).contains(y),
    ensures
        exists|k: int| 0 <= k < xs.len() && #[trigger] v.dfs_from(xs[k], fuel).contains(y),
    decreases xs.len(),
{
    let h = v.dfs_from(xs[0], fuel);
    let rest = xs.drop_first();
    let r = v.dfs_list(rest, fuel);
    assert(v.dfs_list(xs, fuel) == h + r);
    let m = choose|m: int| 0 <= m < (h + r).len() && (h + r)[m] == y;
    if m < h.len() {
        assert(h[m] == y);
        assert(v.dfs_from(xs[0], fuel).contains(y));
    } else {
        assert(r[m - h.len()] == y);
        lemma_dfs_list_member(v, rest, fuel, y);
        let k = choose|k: int| 0 <= k < rest.len() && #[trigger] v.dfs_from(rest[k], fuel).contains(y);
        assert(rest[k] == xs[k + 1]);
        assert(v.dfs_from(xs[k + 1], fuel).contains(y));
    }
}

/// The traversals below the nodes of `xs` visit what the traversal below
/// each one of them visits.
proof fn lemma_dfs_list_includes<D, P, C>(v: ArenaView<D, P, C>, xs: Seq<NodeIdx>, fuel: nat, k: int, y: NodeIdx)
    requires
        0 <= k < xs.len(),
        v.dfs_from(xs[k], fuel).contains(y),
    ensures
        v.dfs_list(xs, fuel).contains(y),
    decreases xs.len(),
{
    let h = v.dfs_from(xs[0], fuel);
    let rest = xs.drop_first();
    let r = v.dfs_list(rest, fuel);
    assert(v.dfs_list(xs, fuel) == h + r);
    if k == 0 {
        let m = choose|m: int| 0 <= m < h.len() && h[m] == y;
        assert((h + r)[m] == y);
    } else {
        assert(rest[k - 1] == xs[k]);
        lemma_dfs_list_includes(v, rest, fuel, k - 1, y);
        let m = choose|m: int| 0 <= m < r.len() && r[m] == y;
        assert((h + r)[h.len() + m] == y);
    }
}

/// Every node that the traversal below `x` visits is reached from `x`.
proof fn lemma_dfs_sound<D, P, C>(v: ArenaView<D, P, C>, x: NodeIdx, fuel: nat, y: NodeIdx)
    requires
        v.linked(),
        v.has(x),
        v.dfs_from(x, fuel).contains(y),
    ensures
        reaches(v, x, y),
    decreases fuel,
{
    let cs = v.children_of(x);
    let l = v.dfs_list(cs, (fuel - 1) as nat);
    assert(v.dfs_from(x, fuel) == seq![x] + l);
    if y == x {
        let p = seq![x];
        assert(is_down_path(v, p));
    } else {
        let m = choose|m: int| 0 <= m < (seq![x] + l).len() && (seq![x] + l)[m] == y;
        assert(l[m - 1] == y);
        lemma_dfs_list_member(v, cs, (fuel - 1) as nat, y);
        let k = choose|k: int| 0 <= k < cs.len() && #[trigger] v.dfs_from(cs[k], (fuel - 1) as nat).contains(y);
        lemma_idxs_of_index(v.node(x).children, k);
        assert(v.has(v.nodes[x.id()].children[k].0));
        lemma_dfs_sound(v, cs[k], (fuel - 1) as nat, y);
        let q = choose|q: Seq<NodeIdx>| #[trigger] is_down_path(v, q) && q[0] == cs[k] && q.last() == y;
        let p = seq![x] + q;
        assert forall|i: int| 0 <= i < p.len() implies v.has(#[trigger] p[i]) by {
            if i > 0 {
                assert(p[i] == q[i - 1]);
            }
        }
        assert forall|i: int| 0 <= i < p.len() - 1 implies v.children_of(#[trigger] p[i]).contains(p[i + 1]) by {
            if i == 0 {
                assert(p[1] == q[0]);
                assert(cs[k] == q[0]);
            } else {
                assert(p[i] == q[i - 1] && p[i + 1] == q[i]);
            }
        }
        assert(is_down_path(v, p));
        assert(p.last() == q.last());
    }
}

/// The traversal below the first node of a downward path of at most
/// `fuel` nodes visits its last node.
proof fn lemma_dfs_complete<D, P, C>(v: ArenaView<D, P, C>, p: Seq<NodeIdx>, fuel: nat)
    requires
        is_down_path(v, p),
        p.len() <= fuel,
    ensures
        v.dfs_from(p[0], fuel).contains(p.last()),
    decreases p.len(),
{
    let x = p[0];
    let cs = v.children_of(x);
    let l = v.dfs_list(cs, (fuel - 1) as nat);
    assert(v.dfs_from(x, fuel) == seq![x] + l);
    if p.len() == 1 {
        assert((seq![x] + l)[0] == x);
    } else {
        let q = p.drop_first();
        assert forall|i: int| 0 <= i < q.len() implies v.has(#[trigger] q[i]) by {
            assert(q[i] == p[i + 1]);
        }
        assert forall|i: int| 0 <= i < q.len() - 1 implies v.children_of(#[trigger] q[i]).contains(q[i + 1]) by {
            assert(q[i] == p[i + 1] && q[i + 1] == p[i + 2]);
        }
        assert(is_down_path(v, q));
        lemma_dfs_complete(v, q, (fuel - 1) as nat);
        assert(q.last() == p.last());
        assert(cs.contains(p[1]));
        let k = choose|k: int| 0 <= k < cs.len() && cs[k] == p[1];
        lemma_dfs_list_includes(v, cs, (fuel - 1) as nat, k, p.last());
        let m = choose|m: int| 0 <= m < l.len() && l[m] == p.last();
        assert((seq![x] + l)[m + 1] == p.last());
    }
}

/// Each node of `s` after the first ones, those of `heads`, is a child of a
/// node that comes before it in `s`.
pub open spec fn follows_from<D, P, C>(v: ArenaView<D, P, C>, s: Seq<NodeIdx>, heads: Seq<NodeIdx>) -> bool {
    forall|i: int|
        0 <= i < s.len() ==> heads.contains(#[trigger] s[i]) || exists|j: int|
            0 <= j < i && v.children_of(s[j]).contains(s[i])
}

/// In the pre-order below `x`, every node but `x` is a child of a node
/// visited before it.
proof fn lemma_dfs_follows<D, P, C>(v: ArenaView<D, P, C>, x: NodeIdx, fuel: nat)
    ensures
        follows_from(v, v.dfs_from(x, fuel), seq![x]),
    decreases fuel, 0nat,
{
    if fuel > 0 {
        let cs = v.children_of(x);
        let l = v.dfs_list(cs, (fuel - 1) as nat);
        lemma_dfs_list_follows(v, cs, (fuel - 1) as nat);
        let s = seq![x] + l;
        assert(v.dfs_from(x, fuel) == s);
        assert forall|i: int| 0 <= i < s.len() implies seq![x].contains(#[trigger] s[i]) || exists|j: int|
            0 <= j < i && v.children_of(s[j]).contains(s[i]) by {
            if i == 0 {
                assert(seq![x][0] == x);
            } else {
                assert(s[i] == l[i - 1]);
                if cs.contains(l[i - 1]) {
                    assert(s[0] == x);
                    assert(0 <= 0 < i && v.children_of(s[0]).contains(s[i]));
                } else {
                    let j = choose|j: int| 0 <= j < i - 1 && v.children_of(l[j]).contains(l[i - 1]);
                    assert(s[j + 1] == l[j]);
                    assert(0 <= j + 1 < i && v.children_of(s[j + 1]).contains(s[i]));
                }
            }
        }
    }
}

/// In the pre-orders below the nodes of `xs`, every node but those of `xs`
/// is a child of a node visited before it.
proof fn lemma_dfs_list_follows<D, P, C>(v: ArenaView<D, P, C>, xs: Seq<NodeIdx>, fuel: nat)
    ensures
        follows_from(v, v.dfs_list(xs, fuel), xs),
    decreases fuel, xs.len(),
{
    if xs.len() > 0 {
        let h = v.dfs_from(xs[0], fuel);
        let rest = xs.drop_first();
        let r = v.dfs_list(rest, fuel);
        lemma_dfs_follows(v, xs[0], fuel);
        lemma_dfs_list_follows(v, rest, fuel);
        let s = h + r;
        assert(v.dfs_list(xs, fuel) == s);
        assert forall|i: int| 0 <= i < s.len() implies xs.contains(#[trigger] s[i]) || exists|j: int|
            0 <= j < i && v.children_of(s[j]).contains(s[i]) by {
            if i < h.len() {
                assert(s[i] == h[i]);
                if seq![xs[0]].contains(h[i]) {
                    assert(seq![xs[0]][0] == xs[0]);
                    assert(h[i] == xs[0]);
                    assert(xs[0] == s[i]);
                } else {
                    let j = choose|j: int| 0 <= j < i && v.children_of(h[j]).contains(h[i]);
                    assert(s[j] == h[j]);
                }
            } else {
                let m = i - h.len();
                assert(s[i] == r[m]);
                if rest.contains(r[m]) {
                    let k = choose|k: int| 0 <= k < rest.len() && rest[k] == r[m];
                    assert(xs[k + 1] == r[m]);
                } else {
                    let j = choose|j: int| 0 <= j < m && v.children_of(r[j]).contains(r[m]);
                    assert(s[j + h.len()] == r[j]);
                    assert(0 <= j + h.len() < i && v.children_of(s[j + h.len()]).contains(s[i]));
                }
            }
        }
    }
}

/// In the pre-order below `x`, every node other than `x` is a child of a
/// node visited before it.
pub proof fn lemma_preorder_follows<D, P, C>(v: ArenaView<D, P, C>, x: NodeIdx)
    ensures
        forall|i: int|
            0 <= i < v.preorder(x).len() && #[trigger] v.preorder(x)[i] != x ==> exists|j: int|
                0 <= j < i && v.children_of(v.preorder(x)[j]).contains(v.preorder(x)[i]),
{
    let s = v.preorder(x);
    lemma_dfs_follows(v, x, v.nodes.len());
    assert forall|i: int| 0 <= i < s.len() && #[trigger] s[i] != x implies exists|j: int|
        0 <= j < i && v.children_of(s[j]).contains(s[i]) by {
        if seq![x].contains(s[i]) {
            assert(seq![x][0] == x);
        }
    }
}

/// Recycling `x` removes every node below it: each node of the pre-order
/// below `x` ends with neither parents nor children, queued as garbage.
pub proof fn lemma_recycle_removes_all<D, P, C>(v: ArenaView<D, P, C>, x: NodeIdx)
    requires
        v.wf(),
        v.has(x),
    ensures
        forall|k: int| 0 <= k < v.preorder(x).len() ==> v.recycle(x).is_removed(#[trigger] v.preorder(x)[k]),
{
    let order = v.preorder(x);
    let gone = members(order);
    let w = v.recycle(x);
    assert(v.linked());
    lemma_recycle_orphans(v, x);
    lemma_preorder_in_range(v, x);
    assert forall|k: int| 0 <= k < order.len() implies w.is_removed(#[trigger] order[k]) by {
        let y = order[k];
        assert(v.has(y));
        assert(NodeIdx(y.id() as usize) == y);
        assert(order.contains(y));
        lemma_dfs_sound(v, x, v.nodes.len(), y);
        let p = choose|p: Seq<NodeIdx>| #[trigger] is_down_path(v, p) && p[0] == x && p.last() == y;
        assert forall|j: int| 0 <= j < v.node(y).children.len() implies gone.contains(
            #[trigger] v.node(y).children[j].0,
        ) by {
            let c = v.node(y).children[j].0;
            lemma_idxs_of_index(v.node(y).children, j);
            assert(v.children_of(y)[j] == c);
            assert(v.has(v.nodes[y.id()].children[j].0));
            let p2 = p.push(c);
            assert forall|i: int| 0 <= i < p2.len() implies v.has(#[trigger] p2[i]) by {
                if i < p.len() {
                    assert(p2[i] == p[i]);
                }
            }
            assert forall|i: int| 0 <= i < p2.len() - 1 implies v.children_of(#[trigger] p2[i]).contains(p2[i + 1]) by {
                if i < p.len() - 1 {
                    assert(p2[i] == p[i] && p2[i + 1] == p[i + 1]);
                } else {
                    assert(p2[i] == y && p2[i + 1] == c);
                }
            }
            assert(is_down_path(v, p2));
            lemma_short_path(v, p2);
            let q = choose|q: Seq<NodeIdx>| #[trigger] is_down_path(v, q) && q[0] == p2[0] && q.last() == p2.last()
                && q.len() <= v.nodes.len();
            lemma_dfs_complete(v, q, v.nodes.len());
            assert(order.contains(c));
        }
        lemma_without_all(v.node(y).children, gone);
    }
}

/// When `x` occurs once among the entries of `s`, as the last one,
/// removing its leftmost entry drops the last entry.
proof fn lemma_remove_first_last<T>(s: Seq<(NodeIdx, T)>, x: NodeIdx)
    requires
        s.len() > 0,
        s.last().0 == x,
        count_of(s, x) == 1,
    ensures
        remove_first(s, x) == s.drop_last(),
{
    lemma_first_index_bounds(s, x);
    let fi = first_index(s, x);
    assert(fi >= 0) by {
        if fi < 0 {
            assert(s[s.len() - 1].0 == x);
        }
    }
    if fi < s.len() - 1 {
        let t = s.remove(fi);
        crate::seqs::lemma_count_remove(s, fi, x);
        lemma_first_index_bounds(t, x);
        assert(t[t.len() - 1] == s[s.len() - 1]);
    }
    assert(s.remove(s.len() - 1) =~= s.drop_last());
}

/// Moving a node that is the last child of its only parent under another
/// node, and then back under its former parent with the former edge data,
/// gives the arena back.
pub proof fn lemma_move_back<D, P, C>(v: ArenaView<D, P, C>, x: NodeIdx, q: NodeIdx, pdata: P, cdata: C)
    requires
        v.wf(),
        v.has(x),
        v.has(q),
        v.node(x).parents.len() == 1,
        v.node(v.node(x).parents[0].0).children.len() > 0,
        v.node(v.node(x).parents[0].0).children.last().0 == x,
    ensures
        ({
            let p = v.node(x).parents[0].0;
            let moved = v.detach_first_parent(x).link(q, x, pdata, cdata);
            moved.detach_first_parent(x).link(
                p,
                x,
                v.node(x).parents[0].1,
                v.node(p).children.last().1,
            ) == v
        }),
{
    let p = v.node(x).parents[0].0;
    lemma_first_parent_edge(v, x);
    let cs = v.node(p).children;
    let ps = v.node(x).parents;
    assert(v.balanced(p.id(), x.id()));
    assert(NodeIdx(p.id() as usize) == p);
    assert(NodeIdx(x.id() as usize) == x);
    assert(v.nodes[p.id()] == v.node(p));
    assert(v.nodes[x.id()] == v.node(x));
    assert(count_of(ps, p) == 1) by {
        assert(ps.drop_first().len() == 0);
        assert(count_of(ps.drop_first(), p) == 0);
    }
    lemma_remove_first_last(cs, x);
    assert(remove_first(ps, p) =~= Seq::<(NodeIdx, P)>::empty()) by {
        assert(first_index(ps, p) == 0);
    }
    let d1 = v.detach_first_parent(x);
    assert(d1 == v.unlink(p, x));
    lemma_wf_unlink(v, p, x);
    assert(d1.node(x).parents.len() == 0);
    assert(!d1.has_edge(q, x)) by {
        assert(d1.balanced(q.id(), x.id()));
        assert(NodeIdx(q.id() as usize) == q);
        assert(d1.nodes[q.id()] == d1.node(q));
        assert(d1.nodes[x.id()] == d1.node(x));
    }
    lemma_link_unlink(d1, q, x, pdata, cdata);
    let moved = d1.link(q, x, pdata, cdata);
    assert(moved.node(x).parents.len() == 1);
    assert(moved.node(x).parents[0].0 == q);
    assert(moved.detach_first_parent(x) == d1);
    let back = d1.link(p, x, ps[0].1, cs.last().1);
    assert(d1.node(p).children == cs.drop_last()) by {
        if p != x {
            assert(d1.node(p).children == remove_first(cs, x));
        } else {
            assert(d1.node(p).children == remove_first(cs, x));
        }
    }
    assert(back.node(p).children =~= cs);
    assert(back.node(x).parents =~= ps);
    assert(back.nodes =~= v.nodes);
    assert(back =~= v);
}

} // verus!
