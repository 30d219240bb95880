//! A graph-structured stack: a stack that can branch off and merge again,
//! kept in an arena.

use vstd::prelude::*;
use vstd::string::StringExecFns;
use vstd::std_specs::iter::IteratorSpec;
use std::collections::VecDeque;
use crate::arena::{lemma_first_parent_edge, Arena, ArenaView};
use crate::error::Result;
use crate::forest::is_default;
use crate::node::{Edge, Node, NodeIdx};
use crate::text::{decimal, push_decimal};
use crate::seqs::{count_of, enqueue_one, first_index, idxs_of, lemma_enqueue_one, lemma_first_index_bounds, remove_first};

verus! {

/// The index of a node in a `Gss`.
#[derive(Clone, Copy, PartialEq, Eq, Structural, PartialOrd, Ord, Hash, Debug)]
pub struct StackIdx(pub NodeIdx);

/// The displayed form of a stack index: its slot, in decimal, wrapped as
/// `StackIdx(..)`.
pub open spec fn stack_idx_text(x: StackIdx) -> Seq<char> {
    "StackIdx("@ + decimal(x.0.0 as nat) + ")"@
}

/// The displayed form of a stack path: its nodes, each displayed, joined
/// by arrows.
pub open spec fn path_text(s: Seq<StackIdx>) -> Seq<char>
    decreases s.len(),
{
    if s.len() == 0 {
        Seq::empty()
    } else if s.len() == 1 {
        stack_idx_text(s[0])
    } else {
        path_text(s.drop_last()) + "->"@ + stack_idx_text(s.last())
    }
}

impl StackIdx {
    /// The displayed form of `self`.
    pub fn to_string(&self) -> (r: String)
        ensures
            r@ == stack_idx_text(*self),
    {
        let mut buf = String::new();
        self.push_text(&mut buf);
        buf
    }

    /// Append the displayed form of `self` to `buf`.
    fn push_text(&self, buf: &mut String)
        ensures
            final(buf)@ == old(buf)@ + stack_idx_text(*self),
    {
        let ghost b0 = buf@;
        buf.append("StackIdx(");
        push_decimal(buf, self.0.0);
        buf.append(")");
        assert(buf@ =~= b0 + stack_idx_text(*self));
    }

    /// The index of the first node that is pushed to an empty `Gss`.
    pub fn root() -> (r: StackIdx)
        ensures
            r == StackIdx(NodeIdx(0)),
    {
        StackIdx(NodeIdx(0))
    }
}

impl From<usize> for StackIdx {
    fn from(idx: usize) -> (r: Self)
        ensures
            r == StackIdx(NodeIdx(idx)),
    {
        StackIdx(NodeIdx(idx))
    }
}

impl vstd::std_specs::convert::FromSpecImpl<usize> for StackIdx {
    open spec fn obeys_from_spec() -> bool {
        true
    }

    open spec fn from_spec(idx: usize) -> StackIdx {
        StackIdx(NodeIdx(idx))
    }
}

impl From<NodeIdx> for StackIdx {
    fn from(idx: NodeIdx) -> (r: Self)
        ensures
            r == StackIdx(idx),
    {
        StackIdx(idx)
    }
}

impl vstd::std_specs::convert::FromSpecImpl<NodeIdx> for StackIdx {
    open spec fn obeys_from_spec() -> bool {
        true
    }

    open spec fn from_spec(idx: NodeIdx) -> StackIdx {
        StackIdx(idx)
    }
}

impl std::ops::Deref for StackIdx {
    type Target = NodeIdx;

    fn deref(&self) -> (r: &NodeIdx)
        ensures
            *r == self.0,
    {
        &self.0
    }
}

/// The edges of the path `s`, from each node to the next one.
pub open spec fn path_edges(s: Seq<StackIdx>) -> Seq<(StackIdx, StackIdx)> {
    Seq::new(
        if s.len() > 0 {
            (s.len() - 1) as nat
        } else {
            0
        },
        |i: int| (s[i], s[i + 1]),
    )
}

/// A stack path through a `Gss`, starting at a top-of-stack.
#[derive(Clone, Debug, PartialEq, Eq, PartialOrd, Ord, Hash)]
pub struct StackPath(VecDeque<StackIdx>);

impl StackPath {
    /// The nodes of `self`, from its head to its tail.
    pub closed spec fn view(&self) -> Seq<StackIdx> {
        self.0@
    }

    /// An empty path.
    pub fn new() -> (r: Self)
        ensures
            r@ == Seq::<StackIdx>::empty(),
    {
        StackPath(VecDeque::with_capacity(16))
    }

    /// The first node of `self`, if any.
    pub fn head(&self) -> (r: Option<StackIdx>)
        ensures
            r == if self@.len() > 0 {
                Some(self@[0])
            } else {
                None
            },
    {
        if self.0.len() > 0 {
            Some(self.0[0])
        } else {
            None
        }
    }

    /// The last node of `self`, if any.
    pub fn tail(&self) -> (r: Option<StackIdx>)
        ensures
            r == if self@.len() > 0 {
                Some(self@.last())
            } else {
                None
            },
    {
        let n = self.0.len();
        if n > 0 {
            Some(self.0[n - 1])
        } else {
            None
        }
    }

    /// `self` with `head` in front.
    pub fn prepend(self, head: StackIdx) -> (r: Self)
        ensures
            r@ == seq![head] + self@,
    {
        let mut s = self;
        s.0.push_front(head);
        s
    }

    /// `self` with `tail` at the back.
    pub fn append(self, tail: StackIdx) -> (r: Self)
        ensures
            r@ == self@.push(tail),
    {
        let mut s = self;
        s.0.push_back(tail);
        s
    }

    /// A copy of `self` with `tail` at the back.
    fn extended(&self, tail: StackIdx) -> (r: Self)
        ensures
            r@ == self@.push(tail),
    {
        let mut d: VecDeque<StackIdx> = VecDeque::with_capacity(self.0.len());
        let mut i: usize = 0;
        while i < self.0.len()
            invariant
                0 <= i <= self@.len(),
                d@ == self@.take(i as int),
            decreases self@.len() - i,
        {
            d.push_back(self.0[i]);
            assert(self@.take(i + 1) =~= self@.take(i as int).push(self@[i as int]));
            i = i + 1;
        }
        d.push_back(tail);
        assert(self@.take(i as int) =~= self@);
        StackPath(d)
    }

    /// `node` lies on `self`.
    pub fn contains_node(&self, node: StackIdx) -> (r: bool)
        ensures
            r == self@.contains(node),
    {
        let mut i: usize = 0;
        while i < self.0.len()
            invariant
                0 <= i <= self@.len(),
                forall|j: int| 0 <= j < i ==> self@[j] != node,
            decreases self@.len() - i,
        {
            if self.0[i] == node {
                return true;
            }
            i = i + 1;
        }
        false
    }

    /// `edge` is one of the edges of `self`.
    pub fn contains_edge(&self, edge: (StackIdx, StackIdx)) -> (r: bool)
        ensures
            r == path_edges(self@).contains(edge),
    {
        let edges = self.edges();
        let mut i: usize = 0;
        while i < edges.len()
            invariant
                edges@ == path_edges(self@),
                0 <= i <= edges@.len(),
                forall|j: int| 0 <= j < i ==> edges@[j] != edge,
            decreases edges@.len() - i,
        {
            let e = edges[i];
            if e.0 == edge.0 && e.1 == edge.1 {
                assert(edges@[i as int] == edge);
                return true;
            }
            i = i + 1;
        }
        false
    }

    /// The nodes of `self`, from its head to its tail.
    pub fn nodes(&self) -> (r: Vec<StackIdx>)
        ensures
            r@ == self@,
    {
        let mut r: Vec<StackIdx> = Vec::with_capacity(self.0.len());
        let mut i: usize = 0;
        while i < self.0.len()
            invariant
                0 <= i <= self@.len(),
                r@ == self@.take(i as int),
            decreases self@.len() - i,
        {
            r.push(self.0[i]);
            assert(self@.take(i + 1) =~= self@.take(i as int).push(self@[i as int]));
            i = i + 1;
        }
        assert(self@.take(i as int) =~= self@);
        r
    }

    /// The displayed form of `self`: its nodes from head to tail, joined by
    /// arrows.
    pub fn to_string(&self) -> (r: String)
        ensures
            r@ == path_text(self@),
    {
        let mut buf = String::new();
        let mut i: usize = 0;
        while i < self.0.len()
            invariant
                0 <= i <= self@.len(),
                buf@ == path_text(self@.take(i as int)),
            decreases self@.len() - i,
        {
            let ghost b0 = buf@;
            if i > 0 {
                buf.append("->");
            }
            self.0[i].push_text(&mut buf);
            proof {
                let t = self@.take(i + 1);
                assert(t.drop_last() =~= self@.take(i as int));
                assert(t.last() == self@[i as int]);
                if i == 0 {
                    assert(buf@ =~= path_text(t));
                } else {
                    assert(buf@ =~= path_text(t.drop_last()) + "->"@ + stack_idx_text(t.last()));
                }
            }
            i = i + 1;
        }
        assert(self@.take(i as int) =~= self@);
        buf
    }

    /// The edges of `self`, from each node to the next one.
    pub fn edges(&self) -> (r: Vec<(StackIdx, StackIdx)>)
        ensures
            r@ == path_edges(self@),
    {
        let mut r: Vec<(StackIdx, StackIdx)> = Vec::new();
        let n = self.0.len();
        if n == 0 {
            assert(path_edges(self@) =~= Seq::<(StackIdx, StackIdx)>::empty());
            return r;
        }
        let mut i: usize = 0;
        while i + 1 < n
            invariant
                n == self@.len(),
                n > 0,
                0 <= i < n,
                r@ =~= path_edges(self@).take(i as int),
            decreases n - i,
        {
            r.push((self.0[i], self.0[i + 1]));
            assert(path_edges(self@).take(i + 1) =~= path_edges(self@).take(i as int).push(
                (self@[i as int], self@[i + 1]),
            ));
            i = i + 1;
        }
        assert(path_edges(self@).take(i as int) =~= path_edges(self@));
        r
    }
}

impl IntoIterator for StackPath {
    type Item = StackIdx;
    type IntoIter = std::vec::IntoIter<StackIdx>;

    /// The nodes of `self`, from its head to its tail.
    fn into_iter(self) -> (r: std::vec::IntoIter<StackIdx>)
        ensures
            IteratorSpec::remaining(&r) == self@,
    {
        let v = self.nodes();
        proof {
            broadcast use vstd::std_specs::vec::axiom_spec_into_iter;
            assert(IteratorSpec::remaining(&v.into_iter()) == v@);
        }
        v.into_iter()
    }
}

/// The errors of a `Gss`.
#[derive(Clone, Debug, PartialEq, Eq, PartialOrd, Ord, Hash)]
pub enum Error {
    /// Node {0} is not a top-of-stack
    ExpectedTop(NodeIdx),
}

impl From<Error> for crate::error::Error {
    fn from(e: Error) -> (r: Self)
        ensures
            r == match e {
                Error::ExpectedTop(x) => crate::error::Error::ExpectedGssTop(x),
            },
    {
        match e {
            Error::ExpectedTop(x) => crate::error::Error::ExpectedGssTop(x),
        }
    }
}

impl vstd::std_specs::convert::FromSpecImpl<Error> for crate::error::Error {
    open spec fn obeys_from_spec() -> bool {
        true
    }

    open spec fn from_spec(e: Error) -> crate::error::Error {
        match e {
            Error::ExpectedTop(x) => crate::error::Error::ExpectedGssTop(x),
        }
    }
}

/// The abstract value of a `Gss`: its arena, whose parent edges carry the
/// edge data, and its list of tops-of-stack.
#[verifier::ext_equal]
pub ghost struct GssView<N, E> {
    pub arena: ArenaView<N, E, ()>,
    pub tops: Seq<StackIdx>,
}

/// The paths one node longer than those of `ps`: each path of `ps`, in
/// turn, extended by each parent of its last node, leftmost first.
pub open spec fn extend_paths<N, E>(v: ArenaView<N, E, ()>, ps: Seq<Seq<StackIdx>>) -> Seq<Seq<StackIdx>>
    decreases ps.len(),
{
    if ps.len() == 0 {
        Seq::empty()
    } else {
        extend_paths(v, ps.drop_last()) + v.parents_of(ps.last().last().0).map_values(
            |p: NodeIdx| ps.last().push(StackIdx(p)),
        )
    }
}

/// The stack paths of `len` edges that start at `top`, in the order in
/// which `stack_paths` yields them.
pub open spec fn paths_from<N, E>(v: ArenaView<N, E, ()>, top: StackIdx, len: nat) -> Seq<Seq<StackIdx>>
    decreases len,
{
    if len == 0 {
        seq![seq![top]]
    } else {
        extend_paths(v, paths_from(v, top, (len - 1) as nat))
    }
}

/// `p` is a stack path of `len` edges from `top` in `v`: `len + 1` nodes,
/// `top` first, each of the others a parent of the one before it.
pub open spec fn is_stack_path<N, E>(v: ArenaView<N, E, ()>, top: StackIdx, len: nat, p: Seq<StackIdx>) -> bool {
    &&& p.len() == len + 1
    &&& p[0] == top
    &&& forall|i: int| 0 <= i < len ==> v.parents_of(#[trigger] p[i].0).contains(p[i + 1].0)
}

/// A path of `extend_paths(v, ps)` is a path of `ps` followed by a parent
/// of its last node, and every such path is one of them.
proof fn lemma_extend_paths_contains<N, E>(v: ArenaView<N, E, ()>, ps: Seq<Seq<StackIdx>>, q: Seq<StackIdx>)
    ensures
        extend_paths(v, ps).contains(q) <==> exists|k: int, x: NodeIdx|
            0 <= k < ps.len() && #[trigger] v.parents_of(ps[k].last().0).contains(x) && q == ps[k].push(StackIdx(x)),
    decreases ps.len(),
{
    if ps.len() > 0 {
        let init = ps.drop_last();
        let last = ps.last();
        let tail = v.parents_of(last.last().0).map_values(|p: NodeIdx| last.push(StackIdx(p)));
        lemma_extend_paths_contains(v, init, q);
        let e = extend_paths(v, ps);
        assert(e == extend_paths(v, init) + tail);
        if e.contains(q) {
            let m = choose|m: int| 0 <= m < e.len() && e[m] == q;
            if m < extend_paths(v, init).len() {
                assert(extend_paths(v, init)[m] == q);
                let (k, x) = choose|k: int, x: NodeIdx|
                    0 <= k < init.len() && #[trigger] v.parents_of(init[k].last().0).contains(x) && q == init[k].push(
                        StackIdx(x),
                    );
                assert(ps[k] == init[k]);
            } else {
                let j = m - extend_paths(v, init).len();
                assert(tail[j] == q);
                let x = v.parents_of(last.last().0)[j];
                assert(v.parents_of(ps[ps.len() - 1].last().0).contains(x));
            }
        }
        if exists|k: int, x: NodeIdx|
            0 <= k < ps.len() && #[trigger] v.parents_of(ps[k].last().0).contains(x) && q == ps[k].push(StackIdx(x)) {
            let (k, x) = choose|k: int, x: NodeIdx|
                0 <= k < ps.len() && #[trigger] v.parents_of(ps[k].last().0).contains(x) && q == ps[k].push(StackIdx(x));
            if k < init.len() {
                assert(init[k] == ps[k]);
                assert(v.parents_of(init[k].last().0).contains(x));
                let m = choose|m: int| 0 <= m < extend_paths(v, init).len() && extend_paths(v, init)[m] == q;
                assert(e[m] == q);
            } else {
                let j = choose|j: int| 0 <= j < v.parents_of(last.last().0).len() && v.parents_of(last.last().0)[j] == x;
                assert(tail[j] == q);
                assert(e[extend_paths(v, init).len() + j] == q);
            }
        }
    }
}

/// `stack_paths(top, len)` yields exactly the stack paths of `len` edges
/// from `top`: each path it yields is one, and each one is among them.
pub proof fn lemma_stack_paths_exact<N, E>(v: ArenaView<N, E, ()>, top: StackIdx, len: nat)
    ensures
        forall|p: Seq<StackIdx>|
            #![trigger paths_from(v, top, len).contains(p)]
            #![trigger is_stack_path(v, top, len, p)]
            paths_from(v, top, len).contains(p) <==> is_stack_path(v, top, len, p),
    decreases len,
{
    if len == 0 {
        assert forall|p: Seq<StackIdx>| paths_from(v, top, len).contains(p) <==> is_stack_path(v, top, len, p) by {
            if is_stack_path(v, top, len, p) {
                assert(p =~= seq![top]);
                assert(paths_from(v, top, len)[0] == p);
            }
            if paths_from(v, top, len).contains(p) {
                assert(paths_from(v, top, len)[0] == seq![top]);
            }
        }
    } else {
        let l1 = (len - 1) as nat;
        let ps = paths_from(v, top, l1);
        lemma_stack_paths_exact(v, top, l1);
        assert forall|q: Seq<StackIdx>| paths_from(v, top, len).contains(q) <==> is_stack_path(v, top, len, q) by {
            lemma_extend_paths_contains(v, ps, q);
            if paths_from(v, top, len).contains(q) {
                let (k, x) = choose|k: int, x: NodeIdx|
                    0 <= k < ps.len() && #[trigger] v.parents_of(ps[k].last().0).contains(x) && q == ps[k].push(StackIdx(x));
                assert(ps.contains(ps[k]));
                assert(is_stack_path(v, top, l1, ps[k]));
                assert forall|i: int| 0 <= i < len implies v.parents_of(#[trigger] q[i].0).contains(q[i + 1].0) by {
                    if i < l1 {
                        assert(q[i] == ps[k][i] && q[i + 1] == ps[k][i + 1]);
                    } else {
                        assert(q[i] == ps[k].last());
                    }
                }
            }
            if is_stack_path(v, top, len, q) {
                let p = q.drop_last();
                assert forall|i: int| 0 <= i < l1 implies v.parents_of(#[trigger] p[i].0).contains(p[i + 1].0) by {
                    assert(v.parents_of(q[i].0).contains(q[i + 1].0));
                }
                assert(is_stack_path(v, top, l1, p));
                assert(ps.contains(p));
                let k = choose|k: int| 0 <= k < ps.len() && ps[k] == p;
                assert(v.parents_of(q[l1 as int].0).contains(q[len as int].0));
                assert(p.last() == q[l1 as int]);
                assert(q =~= ps[k].push(StackIdx(q.last().0)));
                assert(v.parents_of(ps[k].last().0).contains(q.last().0));
            }
        }
    }
}

/// Pushing onto a stack whose garbage slots have no edges, on a parent that
/// is not garbage, keeps them so, and the new node has that parent alone
/// and no children.
proof fn lemma_push_clean<N, E>(v0: ArenaView<N, E, ()>, v1: ArenaView<N, E, ()>, x: NodeIdx, parent: Option<(StackIdx, E)>)
    requires
        v0.wf(),
        v1.wf(),
        (v1, x) == v0.allocate(v1.node(x).data),
        parent matches Some(pe) ==> v0.has(pe.0.0),
    ensures
        ({
            let f = match parent {
                Some((p, d)) => v1.link(p.0, x, d, ()),
                None => v1,
            };
            v0.garbage_clean() && (parent matches Some(pe) ==> !v0.garbage.contains(pe.0.0)) ==> {
                &&& f.garbage_clean()
                &&& f.node(x).children.len() == 0
                &&& f.node(x).parents == match parent {
                    Some((p, d)) => seq![(p.0, d)],
                    None => Seq::<(NodeIdx, E)>::empty(),
                }
            }
        }),
{
    if v0.garbage_clean() && (parent matches Some(pe) ==> !v0.garbage.contains(pe.0.0)) {
        crate::arena::lemma_allocate_clean(v0, v1.node(x).data);
        match parent {
            Some((p, d)) => {
                assert(v1.has(x));
                if v0.garbage.len() > 0 {
                    assert(v0.garbage[0] == x);
                    assert(v0.garbage.contains(x));
                }
                assert(p.0 != x);
                assert(!v1.garbage.contains(p.0));
                crate::arena::lemma_link_clean(v1, p.0, x, d, ());
                assert(v1.link(p.0, x, d, ()).node(x).parents =~= seq![(p.0, d)]);
            },
            None => {
                assert(v1.node(x).parents =~= Seq::<(NodeIdx, E)>::empty());
            },
        }
    }
}

/// `v` after the edge from each of `ps`, in turn, to `x` was removed.
pub open spec fn unlink_from<N, E>(v: ArenaView<N, E, ()>, ps: Seq<NodeIdx>, x: NodeIdx) -> ArenaView<N, E, ()>
    decreases ps.len(),
{
    if ps.len() == 0 {
        v
    } else {
        unlink_from(v, ps.drop_last(), x).unlink(ps.last(), x)
    }
}

/// The views of the paths `ps`.
pub open spec fn path_views(ps: Seq<StackPath>) -> Seq<Seq<StackIdx>> {
    ps.map_values(|p: StackPath| p@)
}

/// A arena-allocated `Graph-Structured Stack` implementation.
/// A Gss is an abstraction of the well-known `Stack` datastructure such that:
///   0. It can branch off i.e. in general it has a tree-like shape
///   1. Branches can merge, as long as doing so does not result in a cycle
///   2. When pushing a new node N to a stack, the top-of-stack T to which
///      N is pushed to becomes N's parent node i.e. pushing only results in
///      new child nodes.
///   3. Each node has associated data of type `N`
///   4. Each edge has associated data of type `E`
#[derive(Debug)]
pub struct Gss<N, E> {
    arena: Arena<N, E, ()>,
    tops: Vec<StackIdx>,
}

impl<N, E> Default for Gss<N, E> {
    fn default() -> (r: Self)
        ensures
            r@.arena.nodes.len() == 0,
            r@.arena.garbage.len() == 0,
            r@.tops.len() == 0,
            r.wf(),
    {
        Self::with_capacity(1024)
    }
}

impl<N, E> std::ops::Index<StackIdx> for Gss<N, E> {
    type Output = Node<N, E, ()>;

    fn index(&self, idx: StackIdx) -> (r: &Node<N, E, ()>)
        ensures
            r@ == self@.arena.node(idx.0),
    {
        self.arena.node(idx.0)
    }
}

impl<N, E> vstd::std_specs::core::IndexSpecImpl<StackIdx> for Gss<N, E> {
    open spec fn index_req(&self, idx: &StackIdx) -> bool {
        self@.arena.has(idx.0)
    }
}

impl<N, E> Gss<N, E> {
    /// The abstract value of `self`.
    pub closed spec fn view(&self) -> GssView<N, E> {
        GssView { arena: self.arena@, tops: self.tops@ }
    }

    /// The arena of `self` is well-formed, and every top-of-stack is an
    /// allocated slot.
    pub open spec fn wf(&self) -> bool {
        &&& self@.arena.wf()
        &&& forall|k: int| 0 <= k < self@.tops.len() ==> self@.arena.has(#[trigger] self@.tops[k].0)
    }

    /// `node` is a top-of-stack without children.
    pub open spec fn is_top(&self, node: StackIdx) -> bool {
        self@.tops.contains(node) && self@.arena.node(node.0).children.len() == 0
    }

    /// A mutable borrow of the node `self[idx]`.
    pub fn node_mut(&mut self, idx: StackIdx) -> (r: &mut Node<N, E, ()>)
        requires
            old(self)@.arena.has(idx.0),
        ensures
            (*r)@ == old(self)@.arena.node(idx.0),
            final(self)@ == (GssView {
                arena: ArenaView { nodes: old(self)@.arena.nodes.update(idx.0.id(), (*final(r))@), ..old(self)@.arena },
                ..old(self)@
            }),
    {
        self.arena.node_mut(idx.0)
    }

    /// An empty stack, with room for `cap` nodes before reallocation.
    pub fn with_capacity(cap: usize) -> (r: Self)
        ensures
            r@.arena.nodes.len() == 0,
            r@.arena.garbage.len() == 0,
            r@.tops.len() == 0,
            r.wf(),
    {
        Self { arena: Arena::with_capacity(cap), tops: Vec::with_capacity(8) }
    }

    /// Remove every live node, and every top-of-stack: afterwards every
    /// slot is queued as garbage exactly once.
    pub fn clear(&mut self) -> (r: Result<()>)
        requires
            old(self).wf(),
        ensures
            final(self).wf(),
            r is Ok,
            final(self)@.arena == old(self)@.arena.rm_sweep(old(self)@.arena.live_slots()),
            final(self)@.tops.len() == 0,
            final(self)@.arena.nodes.len() == old(self)@.arena.nodes.len(),
            forall|y: NodeIdx| final(self)@.arena.has(y) ==> #[trigger] final(self)@.arena.garbage.contains(y),
            final(self)@.arena.garbage.len() == final(self)@.arena.nodes.len(),
            old(self)@.arena.garbage_clean() ==> final(self)@.arena.garbage_clean(),
    {
        match self.arena.clear() {
            Ok(()) => {},
            Err(e) => {
                assert(false);
                return Err(e);
            },
        }
        self.tops.clear();
        Ok(())
    }

    /// The tops-of-stack, in the order in which they became tops.
    pub fn tops(&self) -> (r: Vec<StackIdx>)
        ensures
            r@ == self@.tops,
    {
        let mut r: Vec<StackIdx> = Vec::with_capacity(self.tops.len());
        let mut i: usize = 0;
        while i < self.tops.len()
            invariant
                0 <= i <= self@.tops.len(),
                r@ == self@.tops.take(i as int),
            decreases self@.tops.len() - i,
        {
            r.push(self.tops[i]);
            assert(self@.tops.take(i + 1) =~= self@.tops.take(i as int).push(self@.tops[i as int]));
            i = i + 1;
        }
        assert(self@.tops.take(i as int) =~= self@.tops);
        r
    }

    /// `self` holds no live node.
    pub fn is_empty(&self) -> (r: bool)
        requires
            self@.arena.garbage.len() <= self@.arena.nodes.len(),
        ensures
            r == (self@.arena.nodes.len() == self@.arena.garbage.len()),
            self.wf() ==> r == (self@.arena.live_slots().len() == 0),
    {
        self.arena.logical_size().0 == 0
    }

    /// The parent edges of `self[node_idx]`, leftmost first, each with its
    /// data.
    pub fn parent_edges(&self, node_idx: StackIdx) -> (r: Vec<Edge<StackIdx, &E>>)
        requires
            self@.arena.has(node_idx.0),
        ensures
            r@.len() == self@.arena.node(node_idx.0).parents.len(),
            forall|i: int|
                0 <= i < r@.len() ==> (#[trigger] r@[i]).src == node_idx && r@[i].dst == StackIdx(
                    self@.arena.node(node_idx.0).parents[i].0,
                ) && *r@[i].data == self@.arena.node(node_idx.0).parents[i].1,
    {
        let node = self.arena.node(node_idx.0);
        let mut r: Vec<Edge<StackIdx, &E>> = Vec::with_capacity(node.parents.len());
        let mut i: usize = 0;
        while i < node.parents.len()
            invariant
                node@ == self@.arena.node(node_idx.0),
                i <= node@.parents.len(),
                r@.len() == i,
                forall|k: int|
                    0 <= k < i ==> (#[trigger] r@[k]).src == node_idx && r@[k].dst == StackIdx(
                        node@.parents[k].0,
                    ) && *r@[k].data == node@.parents[k].1,
            decreases node@.parents.len() - i,
        {
            r.push(Edge { src: node_idx, dst: StackIdx(node.parents[i].0), data: &node.parents[i].1 });
            i = i + 1;
        }
        r
    }

    /// The leftmost edge from `self[src]` to its parent `self[dst]`, if any.
    pub fn edge(&self, src: StackIdx, dst: StackIdx) -> (r: Option<Edge<StackIdx, &E>>)
        requires
            self.wf(),
            self@.arena.has(src.0),
        ensures
            match r {
                Some(e) => {
                    let ps = self@.arena.node(src.0).parents;
                    &&& first_index(ps, dst.0) >= 0
                    &&& e.src == src
                    &&& e.dst == dst
                    &&& *e.data == ps[first_index(ps, dst.0)].1
                },
                None => count_of(self@.arena.node(src.0).parents, dst.0) == 0,
            },
    {
        match self.arena.parent_edge(src.0, dst.0) {
            Some(e) => Some(Edge { src: StackIdx(e.src), dst: StackIdx(e.dst), data: e.data }),
            None => None,
        }
    }

    /// A mutable borrow of the leftmost edge from `self[src]` to its parent
    /// `self[dst]`, if there is one.
    pub fn edge_mut(&mut self, src: StackIdx, dst: StackIdx) -> (r: Option<Edge<StackIdx, &mut E>>)
        requires
            old(self)@.arena.has(src.0),
        ensures
            match r {
                Some(e) => {
                    let ps = old(self)@.arena.node(src.0).parents;
                    let i = first_index(ps, dst.0);
                    &&& i >= 0
                    &&& e.src == src
                    &&& e.dst == dst
                    &&& *e.data == ps[i].1
                    &&& final(self)@ == (GssView {
                        arena: old(self)@.arena.with_parents(src.0, ps.update(i, (dst.0, *final(e.data)))),
                        tops: old(self)@.tops,
                    })
                },
                None => {
                    &&& count_of(old(self)@.arena.node(src.0).parents, dst.0) == 0
                    &&& final(self)@ == old(self)@
                },
            },
    {
        match self.arena.parent_data_mut(src.0, dst.0) {
            Some(d) => Some(Edge { src, dst, data: d }),
            None => None,
        }
    }

    /// Add an edge from `self[node]` to its new parent `self[parent]`,
    /// carrying `edata`, and return the edge's ends.
    pub fn add_edge(&mut self, node: StackIdx, parent: StackIdx, edata: E) -> (r: (StackIdx, StackIdx))
        requires
            old(self).wf(),
            old(self)@.arena.has(node.0),
            old(self)@.arena.has(parent.0),
        ensures
            final(self).wf(),
            r == (node, parent),
            final(self)@.arena == old(self)@.arena.link(parent.0, node.0, edata, ()),
            final(self)@.tops == old(self)@.tops,
            old(self)@.arena.garbage_clean() && !old(self)@.arena.garbage.contains(node.0)
                && !old(self)@.arena.garbage.contains(parent.0) ==> final(self)@.arena.garbage_clean(),
    {
        let ghost v0 = self@.arena;
        proof {
            if v0.garbage_clean() && !v0.garbage.contains(node.0) && !v0.garbage.contains(parent.0) {
                crate::arena::lemma_link_clean(v0, parent.0, node.0, edata, ());
            }
        }
        self.arena.add_edge((parent.0, node.0), edata, ());
        proof {
            assert(self@.arena.nodes.len() == v0.nodes.len());
            assert forall|k: int| 0 <= k < self@.tops.len() implies self@.arena.has(#[trigger] self@.tops[k].0) by {
                assert(self@.tops[k] == old(self)@.tops[k]);
                assert(v0.has(old(self)@.tops[k].0));
            }
            assert(self@.arena.node(node.0).parents.last().0 == parent.0);
            crate::seqs::lemma_count_push(v0.node(node.0).parents, (parent.0, edata), parent.0);
            assert(self@.arena.node(node.0).parents == v0.node(node.0).parents.push((parent.0, edata)));
        }
        match self.edge(node, parent) {
            Some(e) => (e.src, e.dst),
            None => {
                assert(false);
                (node, parent)
            },
        }
    }

    /// `self[start_idx]` and the nodes below it, in breadth-first order.
    pub fn bfs(&self, start_idx: StackIdx) -> (r: Vec<StackIdx>)
        requires
            self.wf(),
            self@.arena.has(start_idx.0),
        ensures
            r@ == self@.arena.bfs_from(start_idx.0).map_values(|x: NodeIdx| StackIdx(x)),
    {
        let order = self.arena.bfs(start_idx.0);
        let mut r: Vec<StackIdx> = Vec::with_capacity(order.len());
        let mut i: usize = 0;
        while i < order.len()
            invariant
                0 <= i <= order@.len(),
                r@ == order@.take(i as int).map_values(|x: NodeIdx| StackIdx(x)),
            decreases order@.len() - i,
        {
            r.push(StackIdx(order[i]));
            assert(order@.take(i + 1).map_values(|x: NodeIdx| StackIdx(x)) =~= order@.take(
                i as int,
            ).map_values(|x: NodeIdx| StackIdx(x)).push(StackIdx(order@[i as int])));
            i = i + 1;
        }
        assert(order@.take(i as int) =~= order@);
        r
    }
    /// Push a node on top of `self[pidx]` such that:
    ///   1. The node has associated data of type `N`
    ///   2. The parent edge `nidx->pidx` has associated data of type `E`
    ///   3. The child edge `pidx->nidx` has no associated data
    /// The new node becomes the last top-of-stack, and `pidx` stops being one.
    pub fn push(&mut self, parent: Option<(StackIdx, E)>, ndata: N) -> (r: Result<StackIdx>)
        requires
            old(self).wf(),
            parent matches Some(pe) ==> old(self)@.arena.has(pe.0.0),
        ensures
            final(self).wf(),
            ({
                let (v1, x) = old(self)@.arena.allocate(ndata);
                &&& r == Ok::<StackIdx, crate::error::Error>(StackIdx(x))
                &&& match parent {
                    Some((p, d)) => {
                        &&& final(self)@.arena == v1.link(p.0, x, d, ())
                        &&& final(self)@.tops == old(self)@.tops.filter(|t: StackIdx| t != p).push(StackIdx(x))
                    },
                    None => {
                        &&& final(self)@.arena == v1
                        &&& final(self)@.tops == old(self)@.tops.push(StackIdx(x))
                    },
                }
                &&& old(self)@.arena.garbage_clean() && (parent matches Some(pe) ==> !old(
                    self,
                )@.arena.garbage.contains(pe.0.0)) ==> {
                    &&& final(self)@.arena.garbage_clean()
                    &&& final(self)@.arena.node(x).children.len() == 0
                    &&& final(self)@.arena.node(x).parents == match parent {
                        Some((p, d)) => seq![(p.0, d)],
                        None => Seq::<(NodeIdx, E)>::empty(),
                    }
                }
            }),
    {
        let ghost v0 = self@;
        let nidx = StackIdx(self.arena.add_node(ndata));
        proof {
            lemma_push_clean(v0.arena, self@.arena, nidx.0, parent);
        }
        assert(self@.arena.nodes.len() >= v0.arena.nodes.len());
        if let Some((pidx, pdata)) = parent {
            self.arena.add_edge((pidx.0, nidx.0), pdata, ());
            let mut kept: Vec<StackIdx> = Vec::with_capacity(self.tops.len());
            let mut i: usize = 0;
            while i < self.tops.len()
                invariant
                    self.tops@ == v0.tops,
                    0 <= i <= v0.tops.len(),
                    kept@ == v0.tops.take(i as int).filter(|t: StackIdx| t != pidx),
                decreases v0.tops.len() - i,
            {
                let t = self.tops[i];
                proof {
                    assert(v0.tops.take(i + 1).drop_last() =~= v0.tops.take(i as int));
                    assert(v0.tops.take(i + 1).last() == t);
                    v0.tops.take(i as int).lemma_filter_push(t, |t: StackIdx| t != pidx);
                    assert(v0.tops.take(i as int).push(t) =~= v0.tops.take(i + 1));
                }
                if t != pidx {
                    kept.push(t);
                }
                i = i + 1;
            }
            assert(v0.tops.take(i as int) =~= v0.tops);
            self.tops = kept;
        }
        self.tops.push(nidx);
        proof {
            assert forall|k: int| 0 <= k < self@.tops.len() implies self@.arena.has(#[trigger] self@.tops[k].0) by {
                if k < self@.tops.len() - 1 {
                    let t = self@.tops[k];
                    match parent {
                        Some((p, d)) => {
                            assert(v0.tops.filter(|t: StackIdx| t != p).contains(t));
                            v0.tops.lemma_filter_contains_rev(|t: StackIdx| t != p, t);
                        },
                        None => {
                            assert(t == v0.tops[k]);
                        },
                    }
                    let j = choose|j: int| 0 <= j < v0.tops.len() && v0.tops[j] == t;
                    assert(v0.arena.has(v0.tops[j].0));
                }
            }
        }
        Ok(nidx)
    }

    /// Check that `self[node]` is a top-of-stack without children.
    fn ensure_is_top_of_stack(&self, node: StackIdx) -> (r: Result<()>)
        requires
            self.wf(),
        ensures
            r is Ok <==> self.is_top(node),
            r matches Err(e) ==> e == crate::error::Error::ExpectedGssTop(node.0),
    {
        let mut found = false;
        let mut i: usize = 0;
        while i < self.tops.len()
            invariant
                0 <= i <= self@.tops.len(),
                found <==> self@.tops.take(i as int).contains(node),
            decreases self@.tops.len() - i,
        {
            proof {
                let s1 = self@.tops.take(i as int);
                let s2 = self@.tops.take(i + 1);
                assert(s2 =~= s1.push(self@.tops[i as int]));
                if s2.contains(node) {
                    let w = choose|w: int| 0 <= w < s2.len() && s2[w] == node;
                    if w < i {
                        assert(s1[w] == node);
                    }
                }
                if s1.contains(node) {
                    let w = choose|w: int| 0 <= w < s1.len() && s1[w] == node;
                    assert(s2[w] == node);
                }
                assert(s2[i as int] == self@.tops[i as int]);
            }
            if self.tops[i] == node {
                found = true;
            }
            i = i + 1;
        }
        assert(self@.tops.take(i as int) =~= self@.tops);
        if found {
            let ghost j = choose|j: int| 0 <= j < self@.tops.len() && self@.tops[j] == node;
            assert(self@.arena.has(self@.tops[j].0));
            if !self.arena.node(node.0).has_children() {
                return Ok(());
            }
        }
        Err(crate::error::Error::from(Error::ExpectedTop(node.0)))
    }

    /// Pop the top-of-stack `self[top]`: remove its parent edges, then the
    /// node itself, and return its data together with the data of its
    /// parent edges, leftmost first.  The node's slot keeps a default value,
    /// without edges, and is queued as garbage.
    pub fn pop(&mut self, top: StackIdx) -> (r: Result<(N, Vec<E>)>) where
        N: Default,

        requires
            old(self).wf(),
        ensures
            final(self).wf(),
            match r {
                Ok((d, es)) => {
                    &&& old(self).is_top(top)
                    &&& d == old(self)@.arena.node(top.0).data
                    &&& es@ == old(self)@.arena.node(top.0).parents.map_values(|e: (NodeIdx, E)| e.1)
                    &&& final(self)@.tops == old(self)@.tops
                    &&& final(self)@.arena.is_removed(top.0)
                    &&& final(self)@.arena.garbage == enqueue_one(old(self)@.arena.garbage, top.0)
                    &&& final(self)@.arena.garbage.len() == old(self)@.arena.garbage.len() + if old(
                        self,
                    )@.arena.garbage.contains(top.0) {
                        0int
                    } else {
                        1int
                    }
                    &&& old(self)@.arena.garbage_clean() ==> final(self)@.arena.garbage_clean()
                    &&& exists|dv: N|
                        #[trigger] is_default(dv) && final(self)@.arena == unlink_from(
                            old(self)@.arena,
                            old(self)@.arena.parents_of(top.0),
                            top.0,
                        ).with_data(top.0, dv).recycle(top.0)
                },
                Err(e) => {
                    &&& !old(self).is_top(top)
                    &&& e == crate::error::Error::ExpectedGssTop(top.0)
                    &&& final(self)@ == old(self)@
                },
            },
    {
        match self.ensure_is_top_of_stack(top) {
            Ok(()) => {},
            Err(e) => {
                return Err(e);
            },
        }
        let ghost v0 = self@.arena;
        let ghost ps = v0.node(top.0).parents;
        let ghost j0 = choose|j: int| 0 <= j < self@.tops.len() && self@.tops[j] == top;
        assert(v0.has(self@.tops[j0].0));
        let parents = self.arena.node(top.0).parent_idxs();
        let mut edata: Vec<E> = Vec::with_capacity(parents.len());
        let mut i: usize = 0;
        proof {
            assert(parents@.take(0) =~= Seq::<NodeIdx>::empty());
            assert(ps.skip(0) =~= ps);
            assert(ps.take(0).map_values(|e: (NodeIdx, E)| e.1) =~= Seq::<E>::empty());
        }
        while i < parents.len()
            invariant
                v0 == old(self)@.arena,
                v0.wf(),
                v0.has(top.0),
                ps == v0.node(top.0).parents,
                parents@ == idxs_of(ps),
                0 <= i <= ps.len(),
                self@.tops == old(self)@.tops,
                self@.arena.wf(),
                self@.arena.nodes.len() == v0.nodes.len(),
                self@.arena == unlink_from(v0, parents@.take(i as int), top.0),
                self@.arena.node(top.0).parents == ps.skip(i as int),
                self@.arena.node(top.0).children.len() == 0,
                self@.arena.node(top.0).data == v0.node(top.0).data,
                self@.arena.garbage == v0.garbage,
                v0.garbage_clean() ==> self@.arena.garbage_clean(),
                edata@ == ps.take(i as int).map_values(|e: (NodeIdx, E)| e.1),
            decreases ps.len() - i,
        {
            let ghost cur = self@.arena;
            let p = parents[i];
            proof {
                assert(p == ps[i as int].0);
                assert(v0.has(v0.nodes[top.0.id()].parents[i as int].0));
                let s = ps.skip(i as int);
                assert(s[0] == ps[i as int]);
                assert(count_of(s, p) > 0);
                assert(NodeIdx(top.0.id() as usize) == top.0);
                assert(NodeIdx(p.id() as usize) == p);
                assert(cur.balanced(p.id(), top.0.id()));
                if p == top.0 {
                    assert(cur.nodes[top.0.id()] == cur.node(top.0));
                    assert(count_of(cur.node(top.0).children, top.0) == 0);
                }
                assert(first_index(s, p) == 0);
            }
            match self.arena.rm_edge(p, top.0) {
                Ok((pd, _)) => {
                    edata.push(pd);
                },
                Err(e) => {
                    assert(false);
                    return Err(e);
                },
            }
            proof {
                if v0.garbage_clean() {
                    crate::arena::lemma_unlink_clean(cur, p, top.0);
                }
                let s = ps.skip(i as int);
                assert(remove_first(s, p) =~= ps.skip(i + 1));
                assert(parents@.take(i + 1).drop_last() =~= parents@.take(i as int));
                assert(ps.take(i + 1).map_values(|e: (NodeIdx, E)| e.1) =~= ps.take(i as int).map_values(
                    |e: (NodeIdx, E)| e.1,
                ).push(ps[i as int].1));
            }
            i = i + 1;
        }
        proof {
            assert(parents@.take(i as int) =~= parents@);
            assert(ps.take(i as int) =~= ps);
        }
        let ghost cur = self@.arena;
        let mut d = N::default();
        let ghost dv = d;
        std::mem::swap(self.arena.data_mut(top.0), &mut d);
        assert(self@.arena == cur.with_data(top.0, dv));
        proof {
            crate::arena::lemma_wf_with_data(cur, top.0, dv);
            crate::arena::lemma_recycle_twice(cur.with_data(top.0, dv), top.0);
            crate::arena::lemma_recycle_leaf(cur.with_data(top.0, dv), top.0);
            lemma_enqueue_one(v0.garbage, top.0);
            if v0.garbage_clean() {
                let w = cur.with_data(top.0, dv);
                assert forall|k: int| 0 <= k < w.garbage.len() implies w.node(#[trigger] w.garbage[k]).parents.len()
                    == 0 && w.node(w.garbage[k]).children.len() == 0 by {
                    assert(cur.node(cur.garbage[k]).parents.len() == 0);
                    assert(cur.has(cur.garbage[k]));
                    if w.garbage[k] == top.0 {
                    } else {
                        assert(w.node(w.garbage[k]) == cur.node(cur.garbage[k]));
                    }
                }
            }
        }
        match self.arena.rm_node(top.0) {
            Ok(()) => {},
            Err(e) => {
                assert(false);
                return Err(e);
            },
        }
        proof {
            assert(is_default(dv));
            assert forall|k: int| 0 <= k < self@.tops.len() implies self@.arena.has(#[trigger] self@.tops[k].0) by {
                assert(self@.tops[k] == old(self)@.tops[k]);
                assert(v0.has(old(self)@.tops[k].0));
            }
        }
        Ok((d, edata))
    }

    /// All stack paths of `len` edges that start at `top`: each path holds
    /// `len + 1` nodes, from `top` down through a parent of each node.
    /// The paths are extended one edge at a time, each path by each parent
    /// of its last node, leftmost first.
    pub fn stack_paths(&self, top: StackIdx, len: usize) -> (r: Vec<StackPath>)
        requires
            self.wf(),
            len > 0 ==> self@.arena.has(top.0),
        ensures
            path_views(r@) == paths_from(self@.arena, top, len as nat),
            forall|i: int| 0 <= i < r@.len() ==> path_edges((#[trigger] r@[i])@).len() == len,
    {
        let ghost v = self@.arena;
        let mut paths: Vec<StackPath> = Vec::new();
        paths.push(StackPath::new().append(top));
        proof {
            assert(path_views(paths@) =~= seq![seq![top]]);
            assert(paths@[0]@ =~= seq![top]);
        }
        let mut step: usize = 0;
        while step < len
            invariant
                v == self@.arena,
                v.wf(),
                len > 0 ==> v.has(top.0),
                0 <= step <= len,
                path_views(paths@) == paths_from(v, top, step as nat),
                forall|i: int| 0 <= i < paths@.len() ==> (#[trigger] paths@[i])@.len() == step + 1,
                len > 0 ==> forall|i: int, j: int|
                    0 <= i < paths@.len() && 0 <= j < paths@[i]@.len() ==> v.has(#[trigger] paths@[i]@[j].0),
            decreases len - step,
        {
            let ghost pv = path_views(paths@);
            let mut next: Vec<StackPath> = Vec::new();
            let mut j: usize = 0;
            proof {
                assert(pv.take(0) =~= Seq::<Seq<StackIdx>>::empty());
                assert(path_views(next@) =~= Seq::<Seq<StackIdx>>::empty());
            }
            while j < paths.len()
                invariant
                    v == self@.arena,
                    v.wf(),
                    len > 0,
                    0 <= j <= paths@.len(),
                    pv == path_views(paths@),
                    forall|i: int| 0 <= i < paths@.len() ==> (#[trigger] paths@[i])@.len() == step + 1,
                    forall|i: int, k: int|
                        0 <= i < paths@.len() && 0 <= k < paths@[i]@.len() ==> v.has(#[trigger] paths@[i]@[k].0),
                    path_views(next@) == extend_paths(v, pv.take(j as int)),
                    forall|i: int| 0 <= i < next@.len() ==> (#[trigger] next@[i])@.len() == step + 2,
                    forall|i: int, k: int|
                        0 <= i < next@.len() && 0 <= k < next@[i]@.len() ==> v.has(#[trigger] next@[i]@[k].0),
                decreases paths@.len() - j,
            {
                let path = &paths[j];
                let tail = match path.tail() {
                    Some(t) => t,
                    None => {
                        assert(false);
                        top
                    },
                };
                assert(v.has(paths@[j as int]@[paths@[j as int]@.len() - 1].0));
                let parents = self.arena.parents_of(tail.0);
                let ghost before = path_views(next@);
                assert(pv[j as int] == paths@[j as int]@);
                let mut k: usize = 0;
                proof {
                    assert(parents@.take(0).map_values(|q: NodeIdx| pv[j as int].push(StackIdx(q)))
                        =~= Seq::<Seq<StackIdx>>::empty());
                    assert(before + Seq::<Seq<StackIdx>>::empty() =~= before);
                }
                while k < parents.len()
                    invariant
                        v == self@.arena,
                        v.wf(),
                        0 <= k <= parents@.len(),
                        parents@ == v.parents_of(tail.0),
                        v.has(tail.0),
                        path@ == pv[j as int],
                        path@.len() == step + 1,
                        forall|m: int| 0 <= m < path@.len() ==> v.has(#[trigger] path@[m].0),
                        path_views(next@) == before + parents@.take(k as int).map_values(
                            |q: NodeIdx| pv[j as int].push(StackIdx(q)),
                        ),
                        forall|i: int| 0 <= i < next@.len() ==> (#[trigger] next@[i])@.len() == step + 2,
                        forall|i: int, m: int|
                            0 <= i < next@.len() && 0 <= m < next@[i]@.len() ==> v.has(#[trigger] next@[i]@[m].0),
                    decreases parents@.len() - k,
                {
                    let q = parents[k];
                    proof {
                        assert(v.has(v.nodes[tail.0.id()].parents[k as int].0));
                    }
                    let np = path.extended(StackIdx(q));
                    let ghost nb = next@;
                    next.push(np);
                    proof {
                        assert(path_views(next@) =~= path_views(nb).push(np@));
                        assert(parents@.take(k + 1).map_values(|q: NodeIdx| pv[j as int].push(StackIdx(q)))
                            =~= parents@.take(k as int).map_values(
                            |q: NodeIdx| pv[j as int].push(StackIdx(q)),
                        ).push(pv[j as int].push(StackIdx(q))));
                    }
                    k = k + 1;
                }
                proof {
                    assert(parents@.take(k as int) =~= parents@);
                    assert(pv.take(j + 1).drop_last() =~= pv.take(j as int));
                    assert(pv.take(j + 1).last() == pv[j as int]);
                    assert(pv[j as int].last() == tail);
                }
                j = j + 1;
            }
            proof {
                assert(pv.take(j as int) =~= pv);
            }
            paths = next;
            step = step + 1;
        }
        paths
    }
}

/// A node just pushed on top of `self[p]` is a top of stack without
/// children, so that popping it succeeds, and gives back the pushed data and
/// the data of its one parent edge.  This holds when the garbage slots have
/// no edges, as `pop` and `clear` leave them, and `p` is not garbage.
pub proof fn lemma_push_pop<N, E>(g: GssView<N, E>, p: StackIdx, e: E, n: N)
    requires
        g.arena.wf(),
        g.arena.has(p.0),
        g.arena.garbage_clean(),
        !g.arena.garbage.contains(p.0),
    ensures
        ({
            let (a1, x) = g.arena.allocate(n);
            let a2 = a1.link(p.0, x, e, ());
            let tops = g.tops.filter(|t: StackIdx| t != p).push(StackIdx(x));
            &&& tops.contains(StackIdx(x))
            &&& a2.node(x).children.len() == 0
            &&& a2.node(x).data == n
            &&& a2.node(x).parents.map_values(|pe: (NodeIdx, E)| pe.1) == seq![e]
        }),
{
    let (a1, x) = g.arena.allocate(n);
    crate::arena::lemma_allocate_clean(g.arena, n);
    if g.arena.garbage.len() > 0 {
        assert(g.arena.has(g.arena.garbage[0]));
        assert(g.arena.garbage[0] == x);
        assert(g.arena.garbage.contains(x));
    }
    assert(x != p.0);
    let a2 = a1.link(p.0, x, e, ());
    let tops = g.tops.filter(|t: StackIdx| t != p).push(StackIdx(x));
    assert(tops[tops.len() - 1] == StackIdx(x));
    assert(a2.node(x).parents =~= seq![(p.0, e)]);
    assert(a2.node(x).parents.map_values(|pe: (NodeIdx, E)| pe.1) =~= seq![e]);
}

} // verus!
