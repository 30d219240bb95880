//! Logical orders between arenas: two lockstep pre-order walks are
//! compared pair of nodes by pair of nodes, and the first pair that differs
//! decides.

use vstd::prelude::*;
use std::cmp::Ordering;
use vstd::std_specs::cmp::{OrdSpec, PartialOrdSpec};
use crate::arena::{
    zip_idxs, lemma_map_matches_insert, lemma_paired_walks_step, lemma_preorder_in_range,
    map_matches, pair_map, paired_walks, walk_total, Arena, ArenaView, shapes_agree, walk_shapes_agree, walk_total_until,
    lemma_walk_total_until_at,
};
use crate::node::NodeIdx;

verus! {

/// The outcome of a comparison, as a plain enum.
#[derive(Clone, Copy, Debug, PartialEq, Eq, Structural, Hash)]
pub enum Order {
    Less,
    Equal,
    Greater,
}

/// `o` as an `Ordering`.
pub open spec fn ordering_of(o: Order) -> Ordering {
    match o {
        Order::Less => Ordering::Less,
        Order::Equal => Ordering::Equal,
        Order::Greater => Ordering::Greater,
    }
}

/// `o` as an `Ordering`.
pub fn to_ordering(o: Order) -> (r: Ordering)
    ensures
        r == ordering_of(o),
{
    match o {
        Order::Less => Ordering::Less,
        Order::Equal => Ordering::Equal,
        Order::Greater => Ordering::Greater,
    }
}

/// `o` as an optional `Ordering`.
pub open spec fn option_ordering_of(o: Option<Order>) -> Option<Ordering> {
    match o {
        Some(x) => Some(ordering_of(x)),
        None => None,
    }
}

/// `o` as an optional `Ordering`.
pub fn to_option_ordering(o: Option<Order>) -> (r: Option<Ordering>)
    ensures
        r == option_ordering_of(o),
{
    match o {
        Some(x) => Some(to_ordering(x)),
        None => None,
    }
}

/// The order of logical sizes, then of the walk `pairs`: the first pair
/// that decides, or else equality.
pub open spec fn sized_walk_order<D, P, C>(
    sv: ArenaView<D, P, C>,
    ov: ArenaView<D, P, C>,
    pairs: Seq<(NodeIdx, NodeIdx)>,
    by_data: bool,
    dord: spec_fn(D, D) -> Option<Order>,
    pord: spec_fn(P, P) -> Option<Order>,
) -> Option<Order> {
    let so = index_order(sv.nodes.len() - sv.garbage.len(), ov.nodes.len() - ov.garbage.len());
    if so != Order::Equal {
        Some(so)
    } else {
        match walk_decision(sv, ov, pairs, by_data, dord, pord) {
            Some(r) => r,
            None => Some(Order::Equal),
        }
    }
}

/// How `a` compares with `b` by `partial_cmp`.
pub open spec fn partial_order_of<T: PartialOrd>(a: T, b: T) -> Option<Order> {
    match a.partial_cmp_spec(&b) {
        Some(Ordering::Less) => Some(Order::Less),
        Some(Ordering::Equal) => Some(Order::Equal),
        Some(Ordering::Greater) => Some(Order::Greater),
        None => None,
    }
}

/// How `a` compares with `b` by `cmp`.
pub open spec fn total_order_of<T: Ord>(a: T, b: T) -> Order {
    match a.cmp_spec(&b) {
        Ordering::Less => Order::Less,
        Ordering::Equal => Order::Equal,
        Ordering::Greater => Order::Greater,
    }
}

/// The partial order of `T`, as a spec function.
pub open spec fn partial_orders<T: PartialOrd>() -> spec_fn(T, T) -> Option<Order> {
    |a: T, b: T| partial_order_of(a, b)
}

/// The total order of `T`, as a spec function.
pub open spec fn total_orders<T: Ord>() -> spec_fn(T, T) -> Option<Order> {
    |a: T, b: T| Some(total_order_of(a, b))
}

/// `partial_cmp` on `T` behaves as its specification says.
pub open spec fn partial_sound<T: PartialOrd>() -> bool {
    T::obeys_partial_cmp_spec()
}

/// `cmp` on `T` behaves as its specification says.
pub open spec fn total_sound<T: Ord>() -> bool {
    T::obeys_cmp_spec()
}

/// Compare `a` with `b` by `partial_cmp`.
fn partial_order<T: PartialOrd>(a: &T, b: &T) -> (r: Option<Order>)
    ensures
        partial_sound::<T>() ==> r == partial_order_of(*a, *b),
{
    match a.partial_cmp(b) {
        Some(Ordering::Less) => Some(Order::Less),
        Some(Ordering::Equal) => Some(Order::Equal),
        Some(Ordering::Greater) => Some(Order::Greater),
        None => None,
    }
}

/// Compare `a` with `b` by `cmp`.
fn total_order<T: Ord>(a: &T, b: &T) -> (r: Order)
    ensures
        total_sound::<T>() ==> r == total_order_of(*a, *b),
{
    match a.cmp(b) {
        Ordering::Less => Order::Less,
        Ordering::Equal => Order::Equal,
        Ordering::Greater => Order::Greater,
    }
}

/// The order of two integers.
pub open spec fn index_order(a: int, b: int) -> Order {
    if a < b {
        Order::Less
    } else if a > b {
        Order::Greater
    } else {
        Order::Equal
    }
}

/// The order of parent entry `x` against `y`: by index, then, when
/// `by_data`, by edge data as `pord` orders them.
pub open spec fn entry_order<P>(
    x: (NodeIdx, P),
    y: (NodeIdx, P),
    by_data: bool,
    pord: spec_fn(P, P) -> Option<Order>,
) -> Option<Order> {
    if x.0.id() < y.0.id() {
        Some(Order::Less)
    } else if x.0.id() > y.0.id() {
        Some(Order::Greater)
    } else if by_data {
        pord(x.1, y.1)
    } else {
        Some(Order::Equal)
    }
}

/// The lexicographic order of two lists of parent entries: the first pair
/// of entries that is not equal decides, and otherwise the shorter list
/// comes first.
pub open spec fn entries_order<P>(
    a: Seq<(NodeIdx, P)>,
    b: Seq<(NodeIdx, P)>,
    by_data: bool,
    pord: spec_fn(P, P) -> Option<Order>,
) -> Option<Order>
    decreases a.len(),
{
    if a.len() == 0 {
        if b.len() == 0 {
            Some(Order::Equal)
        } else {
            Some(Order::Less)
        }
    } else if b.len() == 0 {
        Some(Order::Greater)
    } else {
        let c = entry_order(a[0], b[0], by_data, pord);
        if c == Some(Order::Equal) {
            entries_order(a.drop_first(), b.drop_first(), by_data, pord)
        } else {
            c
        }
    }
}

/// What comparing the paired nodes `s` and `o` under the correspondence
/// `m` decides: nothing (`None`), so that the walk goes on, or its outcome.
/// Unless both are without parent, or both have one parent and `m` pairs
/// them, their parent lists decide; then their numbers of children; then
/// their data, when it is ordered one way or the other.
pub open spec fn pair_decision<D, P, C>(
    sv: ArenaView<D, P, C>,
    ov: ArenaView<D, P, C>,
    m: Map<NodeIdx, NodeIdx>,
    s: NodeIdx,
    o: NodeIdx,
    by_data: bool,
    dord: spec_fn(D, D) -> Option<Order>,
    pord: spec_fn(P, P) -> Option<Order>,
) -> Option<Option<Order>> {
    let sp = sv.node(s).parents;
    let op = ov.node(o).parents;
    let linked = (sp.len() == 0 && op.len() == 0) || (sp.len() == 1 && op.len() == 1 && m.contains_key(
        sp[0].0,
    ) && m[sp[0].0] == op[0].0);
    if !linked {
        Some(entries_order(sp, op, by_data, pord))
    } else {
        let cc = index_order(sv.node(s).children.len() as int, ov.node(o).children.len() as int);
        if cc != Order::Equal {
            Some(Some(cc))
        } else {
            let dc = dord(sv.node(s).data, ov.node(o).data);
            if dc == Some(Order::Less) || dc == Some(Order::Greater) {
                Some(dc)
            } else {
                None
            }
        }
    }
}

/// The decision of the first pair of the walk `pairs` that decides, each
/// pair compared under the correspondence built up to and including it.
pub open spec fn walk_decision<D, P, C>(
    sv: ArenaView<D, P, C>,
    ov: ArenaView<D, P, C>,
    pairs: Seq<(NodeIdx, NodeIdx)>,
    by_data: bool,
    dord: spec_fn(D, D) -> Option<Order>,
    pord: spec_fn(P, P) -> Option<Order>,
) -> Option<Option<Order>>
    decreases pairs.len(),
{
    if pairs.len() == 0 {
        None
    } else {
        let d = walk_decision(sv, ov, pairs.drop_last(), by_data, dord, pord);
        if d is Some {
            d
        } else {
            pair_decision(sv, ov, pair_map(pairs), pairs.last().0, pairs.last().1, by_data, dord, pord)
        }
    }
}

/// Without edge data, the order of entry lists does not depend on the
/// order of edge data.
proof fn lemma_entries_order_ignores_data<P>(
    a: Seq<(NodeIdx, P)>,
    b: Seq<(NodeIdx, P)>,
    p1: spec_fn(P, P) -> Option<Order>,
    p2: spec_fn(P, P) -> Option<Order>,
)
    ensures
        entries_order(a, b, false, p1) == entries_order(a, b, false, p2),
    decreases a.len(),
{
    if a.len() > 0 && b.len() > 0 {
        lemma_entries_order_ignores_data(a.drop_first(), b.drop_first(), p1, p2);
    }
}

/// Without edge data, what a walk decides does not depend on the order of
/// edge data.
pub proof fn lemma_walk_decision_ignores_data<D, P, C>(
    sv: ArenaView<D, P, C>,
    ov: ArenaView<D, P, C>,
    pairs: Seq<(NodeIdx, NodeIdx)>,
    dord: spec_fn(D, D) -> Option<Order>,
    p1: spec_fn(P, P) -> Option<Order>,
    p2: spec_fn(P, P) -> Option<Order>,
)
    ensures
        walk_decision(sv, ov, pairs, false, dord, p1) == walk_decision(sv, ov, pairs, false, dord, p2),
    decreases pairs.len(),
{
    if pairs.len() > 0 {
        lemma_walk_decision_ignores_data(sv, ov, pairs.drop_last(), dord, p1, p2);
        let s = pairs.last().0;
        let o = pairs.last().1;
        lemma_entries_order_ignores_data(sv.node(s).parents, ov.node(o).parents, p1, p2);
    }
}

/// What a walk decides depends on the nodes alone, not on the garbage
/// queue.
pub(crate) proof fn lemma_walk_decision_same_nodes<D, P, C>(
    a: ArenaView<D, P, C>,
    a2: ArenaView<D, P, C>,
    b: ArenaView<D, P, C>,
    pairs: Seq<(NodeIdx, NodeIdx)>,
    by_data: bool,
    dord: spec_fn(D, D) -> Option<Order>,
    pord: spec_fn(P, P) -> Option<Order>,
)
    requires
        a2.nodes == a.nodes,
    ensures
        walk_decision(a2, b, pairs, by_data, dord, pord) == walk_decision(a, b, pairs, by_data, dord, pord),
    decreases pairs.len(),
{
    if pairs.len() > 0 {
        lemma_walk_decision_same_nodes(a, a2, b, pairs.drop_last(), by_data, dord, pord);
    }
}

/// The opposite of `o`.
pub open spec fn flip(o: Order) -> Order {
    match o {
        Order::Less => Order::Greater,
        Order::Equal => Order::Equal,
        Order::Greater => Order::Less,
    }
}

/// The opposite of `o`, when there is one.
pub open spec fn flip_opt(o: Option<Order>) -> Option<Order> {
    match o {
        Some(x) => Some(flip(x)),
        None => None,
    }
}

/// The opposite of a walk decision.
pub open spec fn flip_decision(d: Option<Option<Order>>) -> Option<Option<Order>> {
    match d {
        Some(o) => Some(flip_opt(o)),
        None => None,
    }
}

/// `ord` is antisymmetric: it orders `y` against `x` as the opposite of
/// `x` against `y`.
pub open spec fn antisymmetric<T>(ord: spec_fn(T, T) -> Option<Order>) -> bool {
    forall|x: T, y: T| #[trigger] ord(y, x) == flip_opt(ord(x, y))
}

/// The pairs of `pairs`, each turned around.
pub open spec fn swap_pairs(pairs: Seq<(NodeIdx, NodeIdx)>) -> Seq<(NodeIdx, NodeIdx)> {
    pairs.map_values(|e: (NodeIdx, NodeIdx)| (e.1, e.0))
}

/// No node occurs twice on the same side of `pairs`.
pub open spec fn one_to_one(pairs: Seq<(NodeIdx, NodeIdx)>) -> bool {
    forall|i: int, j: int|
        0 <= i < pairs.len() && 0 <= j < pairs.len() && i != j ==> (#[trigger] pairs[i]).0 != (#[trigger] pairs[j]).0
            && pairs[i].1 != pairs[j].1
}

/// Lists of parent entries compared the other way round are ordered the
/// opposite way, when edge data is ordered antisymmetrically.
proof fn lemma_entries_order_flip<P>(
    a: Seq<(NodeIdx, P)>,
    b: Seq<(NodeIdx, P)>,
    by_data: bool,
    pord: spec_fn(P, P) -> Option<Order>,
)
    requires
        antisymmetric(pord),
    ensures
        entries_order(b, a, by_data, pord) == flip_opt(entries_order(a, b, by_data, pord)),
    decreases a.len(),
{
    if a.len() > 0 && b.len() > 0 {
        lemma_entries_order_flip(a.drop_first(), b.drop_first(), by_data, pord);
        assert(pord(b[0].1, a[0].1) == flip_opt(pord(a[0].1, b[0].1)));
    }
}

/// A key of the correspondence built by `pairs` is the first node of one of
/// its pairs, and is mapped to the second node of such a pair.
proof fn lemma_pair_map_from(pairs: Seq<(NodeIdx, NodeIdx)>, k: NodeIdx)
    requires
        pair_map(pairs).contains_key(k),
    ensures
        exists|i: int| 0 <= i < pairs.len() && (#[trigger] pairs[i]).0 == k && pairs[i].1 == pair_map(pairs)[k],
    decreases pairs.len(),
{
    let t = pairs.drop_last();
    let e = pairs[pairs.len() - 1];
    assert(pairs.last() == e);
    if k == e.0 {
        assert(pairs[pairs.len() - 1].0 == k);
    } else {
        lemma_pair_map_from(t, k);
        let i = choose|i: int| 0 <= i < t.len() && (#[trigger] t[i]).0 == k && t[i].1 == pair_map(t)[k];
        assert(pairs[i] == t[i]);
    }
}

/// The correspondence built by a one-to-one walk turned around is the
/// inverse of the one built by the walk.
proof fn lemma_pair_map_swap(pairs: Seq<(NodeIdx, NodeIdx)>, s: NodeIdx, o: NodeIdx)
    requires
        one_to_one(pairs),
    ensures
        (pair_map(pairs).contains_key(s) && pair_map(pairs)[s] == o) <==> (pair_map(swap_pairs(pairs)).contains_key(o)
            && pair_map(swap_pairs(pairs))[o] == s),
    decreases pairs.len(),
{
    if pairs.len() > 0 {
        let t = pairs.drop_last();
        let n = pairs.len() - 1;
        let e = pairs[n];
        assert(pairs.last() == e);
        assert forall|i: int, j: int| 0 <= i < t.len() && 0 <= j < t.len() && i != j implies (#[trigger] t[i]).0
            != (#[trigger] t[j]).0 && t[i].1 != t[j].1 by {
            assert(t[i] == pairs[i] && t[j] == pairs[j]);
        }
        lemma_pair_map_swap(t, s, o);
        let w = swap_pairs(pairs);
        assert(w.drop_last() =~= swap_pairs(t));
        assert(w.last() == (e.1, e.0));
        let m = pair_map(t);
        let mw = pair_map(swap_pairs(t));
        if m.contains_key(e.0) {
            lemma_pair_map_from(t, e.0);
            let i = choose|i: int| 0 <= i < t.len() && (#[trigger] t[i]).0 == e.0 && t[i].1 == m[e.0];
            assert(pairs[i] == t[i]);
            assert(false);
        }
        if mw.contains_key(e.1) {
            lemma_pair_map_from(swap_pairs(t), e.1);
            let i = choose|i: int| 0 <= i < swap_pairs(t).len() && (#[trigger] swap_pairs(t)[i]).0 == e.1
                && swap_pairs(t)[i].1 == mw[e.1];
            assert(pairs[i] == t[i]);
            assert(false);
        }
        if s != e.0 && m.contains_key(s) && m[s] == e.1 {
            lemma_pair_map_from(t, s);
            let i = choose|i: int| 0 <= i < t.len() && (#[trigger] t[i]).0 == s && t[i].1 == m[s];
            assert(pairs[i] == t[i]);
            assert(false);
        }
        if o != e.1 && mw.contains_key(o) && mw[o] == e.0 {
            lemma_pair_map_from(swap_pairs(t), o);
            let i = choose|i: int| 0 <= i < swap_pairs(t).len() && (#[trigger] swap_pairs(t)[i]).0 == o
                && swap_pairs(t)[i].1 == mw[o];
            assert(pairs[i] == t[i]);
            assert(false);
        }
    }
}

/// A one-to-one walk turned around, between the two arenas taken the other
/// way round, decides the opposite way, when the data and the edge data
/// are ordered antisymmetrically.
pub proof fn lemma_walk_decision_flip<D, P, C>(
    sv: ArenaView<D, P, C>,
    ov: ArenaView<D, P, C>,
    pairs: Seq<(NodeIdx, NodeIdx)>,
    by_data: bool,
    dord: spec_fn(D, D) -> Option<Order>,
    pord: spec_fn(P, P) -> Option<Order>,
)
    requires
        one_to_one(pairs),
        antisymmetric(dord),
        antisymmetric(pord),
    ensures
        walk_decision(ov, sv, swap_pairs(pairs), by_data, dord, pord) == flip_decision(
            walk_decision(sv, ov, pairs, by_data, dord, pord),
        ),
    decreases pairs.len(),
{
    if pairs.len() > 0 {
        let t = pairs.drop_last();
        let n = pairs.len() - 1;
        assert forall|i: int, j: int| 0 <= i < t.len() && 0 <= j < t.len() && i != j implies (#[trigger] t[i]).0
            != (#[trigger] t[j]).0 && t[i].1 != t[j].1 by {
            assert(t[i] == pairs[i] && t[j] == pairs[j]);
        }
        lemma_walk_decision_flip(sv, ov, t, by_data, dord, pord);
        let w = swap_pairs(pairs);
        assert(w.drop_last() =~= swap_pairs(t));
        let e = pairs[n];
        assert(pairs.last() == e);
        assert(w.last() == (e.1, e.0));
        let s = e.0;
        let o = e.1;
        let sp = sv.node(s).parents;
        let op = ov.node(o).parents;
        if sp.len() == 1 && op.len() == 1 {
            lemma_pair_map_swap(pairs, sp[0].0, op[0].0);
        }
        lemma_entries_order_flip(sp, op, by_data, pord);
        assert(dord(ov.node(o).data, sv.node(s).data) == flip_opt(dord(sv.node(s).data, ov.node(o).data)));
    }
}

/// Two arenas compared the other way round, along a one-to-one walk turned
/// around, are ordered the opposite way, when the data and the edge data
/// are ordered antisymmetrically.
pub proof fn lemma_sized_walk_order_flip<D, P, C>(
    sv: ArenaView<D, P, C>,
    ov: ArenaView<D, P, C>,
    pairs: Seq<(NodeIdx, NodeIdx)>,
    by_data: bool,
    dord: spec_fn(D, D) -> Option<Order>,
    pord: spec_fn(P, P) -> Option<Order>,
)
    requires
        one_to_one(pairs),
        antisymmetric(dord),
        antisymmetric(pord),
    ensures
        sized_walk_order(ov, sv, swap_pairs(pairs), by_data, dord, pord) == flip_opt(
            sized_walk_order(sv, ov, pairs, by_data, dord, pord),
        ),
{
    lemma_walk_decision_flip(sv, ov, pairs, by_data, dord, pord);
}

/// Walking two arenas the other way round turns every pair around.
pub proof fn lemma_paired_walks_swap<D, P, C>(
    sv: ArenaView<D, P, C>,
    ov: ArenaView<D, P, C>,
    sr: Seq<NodeIdx>,
    or: Seq<NodeIdx>,
    k: int,
)
    requires
        0 <= k <= sr.len(),
        k <= or.len(),
    ensures
        paired_walks(ov, sv, or.take(k), sr) == swap_pairs(paired_walks(sv, ov, sr.take(k), or)),
    decreases k,
{
    if k == 0 {
        assert(or.take(0) =~= Seq::<NodeIdx>::empty());
        assert(sr.take(0) =~= Seq::<NodeIdx>::empty());
        assert(swap_pairs(Seq::<(NodeIdx, NodeIdx)>::empty()) =~= Seq::<(NodeIdx, NodeIdx)>::empty());
    } else {
        lemma_paired_walks_swap(sv, ov, sr, or, k - 1);
        assert(sr.take(k).drop_last() =~= sr.take(k - 1));
        assert(or.take(k).drop_last() =~= or.take(k - 1));
        assert(sr.take(k).last() == sr[k - 1]);
        assert(or.take(k).last() == or[k - 1]);
        let a = paired_walks(sv, ov, sr.take(k - 1), or);
        let z = zip_idxs(sv.preorder(sr[k - 1]), ov.preorder(or[k - 1]));
        let zb = zip_idxs(ov.preorder(or[k - 1]), sv.preorder(sr[k - 1]));
        assert(zb =~= swap_pairs(z));
        assert(swap_pairs(a + z) =~= swap_pairs(a) + swap_pairs(z));
    }
}

/// Once a walk has decided, later pairs change nothing.
pub proof fn lemma_walk_decision_stuck<D, P, C>(
    sv: ArenaView<D, P, C>,
    ov: ArenaView<D, P, C>,
    a: Seq<(NodeIdx, NodeIdx)>,
    b: Seq<(NodeIdx, NodeIdx)>,
    by_data: bool,
    dord: spec_fn(D, D) -> Option<Order>,
    pord: spec_fn(P, P) -> Option<Order>,
)
    requires
        walk_decision(sv, ov, a, by_data, dord, pord) is Some,
    ensures
        walk_decision(sv, ov, a + b, by_data, dord, pord) == walk_decision(sv, ov, a, by_data, dord, pord),
    decreases b.len(),
{
    if b.len() == 0 {
        assert(a + b =~= a);
    } else {
        lemma_walk_decision_stuck(sv, ov, a, b.drop_last(), by_data, dord, pord);
        assert((a + b).drop_last() =~= a + b.drop_last());
    }
}

/// Under a total order, lists of parent entries are always ordered.
pub proof fn lemma_entries_total<P: Ord>(a: Seq<(NodeIdx, P)>, b: Seq<(NodeIdx, P)>, by_data: bool)
    ensures
        entries_order(a, b, by_data, total_orders::<P>()) is Some,
    decreases a.len(),
{
    if a.len() > 0 && b.len() > 0 {
        lemma_entries_total(a.drop_first(), b.drop_first(), by_data);
    }
}

/// Under total orders, a walk that decides decides on an order.
pub proof fn lemma_walk_total_decision<D: Ord, P: Ord, C>(
    sv: ArenaView<D, P, C>,
    ov: ArenaView<D, P, C>,
    pairs: Seq<(NodeIdx, NodeIdx)>,
    by_data: bool,
)
    ensures
        walk_decision(sv, ov, pairs, by_data, total_orders::<D>(), total_orders::<P>()) is Some ==> walk_decision(
            sv,
            ov,
            pairs,
            by_data,
            total_orders::<D>(),
            total_orders::<P>(),
        )->0 is Some,
    decreases pairs.len(),
{
    if pairs.len() > 0 {
        lemma_walk_total_decision(sv, ov, pairs.drop_last(), by_data);
        let s = pairs.last().0;
        let o = pairs.last().1;
        lemma_entries_total(sv.node(s).parents, ov.node(o).parents, by_data);
    }
}

/// Compare two lists of parent entries lexicographically, by `partial_cmp`
/// on their edge data when `by_data`.
fn entries_partial_order<P: PartialOrd>(a: &Vec<(NodeIdx, P)>, b: &Vec<(NodeIdx, P)>, by_data: bool) -> (r: Option<
    Order,
>)
    ensures
        (by_data ==> partial_sound::<P>()) ==> r == entries_order(a@, b@, by_data, partial_orders::<P>()),
{
    let mut i: usize = 0;
    assert(a@.skip(0) =~= a@);
    assert(b@.skip(0) =~= b@);
    while i < a.len() && i < b.len()
        invariant
            0 <= i <= a@.len(),
            i <= b@.len(),
            (by_data ==> partial_sound::<P>()) ==> entries_order(a@, b@, by_data, partial_orders::<P>())
                == entries_order(a@.skip(i as int), b@.skip(i as int), by_data, partial_orders::<P>()),
        decreases a@.len() - i,
    {
        let c = if a[i].0.0 < b[i].0.0 {
            Some(Order::Less)
        } else if a[i].0.0 > b[i].0.0 {
            Some(Order::Greater)
        } else if by_data {
            partial_order(&a[i].1, &b[i].1)
        } else {
            Some(Order::Equal)
        };
        proof {
            let sa = a@.skip(i as int);
            let sb = b@.skip(i as int);
            assert(sa[0] == a@[i as int]);
            assert(sb[0] == b@[i as int]);
            assert(sa.drop_first() =~= a@.skip(i + 1));
            assert(sb.drop_first() =~= b@.skip(i + 1));
        }
        match c {
            Some(Order::Equal) => {},
            _ => {
                return c;
            },
        }
        i = i + 1;
    }
    if i < a.len() {
        Some(Order::Greater)
    } else if i < b.len() {
        Some(Order::Less)
    } else {
        Some(Order::Equal)
    }
}

/// Compare two lists of parent entries lexicographically, by `cmp` on their
/// edge data when `by_data`.
fn entries_total_order<P: Ord>(a: &Vec<(NodeIdx, P)>, b: &Vec<(NodeIdx, P)>, by_data: bool) -> (r: Order)
    ensures
        (by_data ==> total_sound::<P>()) ==> Some(r) == entries_order(a@, b@, by_data, total_orders::<P>()),
{
    let mut i: usize = 0;
    assert(a@.skip(0) =~= a@);
    assert(b@.skip(0) =~= b@);
    while i < a.len() && i < b.len()
        invariant
            0 <= i <= a@.len(),
            i <= b@.len(),
            (by_data ==> total_sound::<P>()) ==> entries_order(a@, b@, by_data, total_orders::<P>())
                == entries_order(a@.skip(i as int), b@.skip(i as int), by_data, total_orders::<P>()),
        decreases a@.len() - i,
    {
        let c = if a[i].0.0 < b[i].0.0 {
            Order::Less
        } else if a[i].0.0 > b[i].0.0 {
            Order::Greater
        } else if by_data {
            total_order(&a[i].1, &b[i].1)
        } else {
            Order::Equal
        };
        proof {
            let sa = a@.skip(i as int);
            let sb = b@.skip(i as int);
            assert(sa[0] == a@[i as int]);
            assert(sb[0] == b@[i as int]);
            assert(sa.drop_first() =~= a@.skip(i + 1));
            assert(sb.drop_first() =~= b@.skip(i + 1));
        }
        match c {
            Order::Equal => {},
            _ => {
                return c;
            },
        }
        i = i + 1;
    }
    if i < a.len() {
        Order::Greater
    } else if i < b.len() {
        Order::Less
    } else {
        Order::Equal
    }
}

/// The index order of `a` against `b`.
fn usize_order(a: usize, b: usize) -> (r: Order)
    ensures
        r == index_order(a as int, b as int),
{
    if a < b {
        Order::Less
    } else if a > b {
        Order::Greater
    } else {
        Order::Equal
    }
}

impl<D, P, C> Arena<D, P, C> {
    /// The decision of comparing the paired nodes `self[s]` and `other[o]`
    /// by `partial_cmp`, where `map` records the correspondence so far.
    fn pair_partial_decision(
        &self,
        other: &Self,
        map: &Vec<Option<NodeIdx>>,
        m: Ghost<Map<NodeIdx, NodeIdx>>,
        s: NodeIdx,
        o: NodeIdx,
        by_data: bool,
    ) -> (r: Option<Option<Order>>) where D: PartialOrd, P: PartialOrd
        requires
            self@.wf(),
            other@.wf(),
            self@.has(s),
            other@.has(o),
            map@.len() == self@.nodes.len(),
            map_matches(map@, m@),
            self@.node(s).parents.len() == 1 && other@.node(o).parents.len() == 1 ==> m@.contains_key(
                self@.node(s).parents[0].0,
            ),
        ensures
            (partial_sound::<D>() && (by_data ==> partial_sound::<P>())) ==> r == pair_decision(
                self@,
                other@,
                m@,
                s,
                o,
                by_data,
                partial_orders::<D>(),
                partial_orders::<P>(),
            ),
            r is None ==> shapes_agree(self@, other@, m@, s, o),
    {
        let sn = self.node(s);
        let on = other.node(o);
        let linked = if sn.parents.len() == 0 && on.parents.len() == 0 {
            true
        } else if sn.parents.len() == 1 && on.parents.len() == 1 {
            let sp = sn.parents[0].0;
            proof {
                crate::arena::lemma_first_parent_edge(self@, s);
                assert(map@[sp.id()] == Some(m@[sp]));
            }
            match map[sp.0] {
                Some(x) => x == on.parents[0].0,
                None => false,
            }
        } else {
            false
        };
        if !linked {
            return Some(entries_partial_order(&sn.parents, &on.parents, by_data));
        }
        let cc = usize_order(sn.children.len(), on.children.len());
        match cc {
            Order::Equal => {},
            _ => {
                return Some(Some(cc));
            },
        }
        let dc = partial_order(&sn.data, &on.data);
        match dc {
            Some(Order::Less) => Some(dc),
            Some(Order::Greater) => Some(dc),
            _ => None,
        }
    }

    /// The decision of comparing the paired nodes `self[s]` and `other[o]`
    /// by `cmp`, where `map` records the correspondence so far.
    fn pair_total_decision(
        &self,
        other: &Self,
        map: &Vec<Option<NodeIdx>>,
        m: Ghost<Map<NodeIdx, NodeIdx>>,
        s: NodeIdx,
        o: NodeIdx,
        by_data: bool,
    ) -> (r: Option<Option<Order>>) where D: Ord, P: Ord
        requires
            self@.wf(),
            other@.wf(),
            self@.has(s),
            other@.has(o),
            map@.len() == self@.nodes.len(),
            map_matches(map@, m@),
            self@.node(s).parents.len() == 1 && other@.node(o).parents.len() == 1 ==> m@.contains_key(
                self@.node(s).parents[0].0,
            ),
        ensures
            (total_sound::<D>() && (by_data ==> total_sound::<P>())) ==> r == pair_decision(
                self@,
                other@,
                m@,
                s,
                o,
                by_data,
                total_orders::<D>(),
                total_orders::<P>(),
            ),
            r is None ==> shapes_agree(self@, other@, m@, s, o),
    {
        let sn = self.node(s);
        let on = other.node(o);
        let linked = if sn.parents.len() == 0 && on.parents.len() == 0 {
            true
        } else if sn.parents.len() == 1 && on.parents.len() == 1 {
            let sp = sn.parents[0].0;
            proof {
                crate::arena::lemma_first_parent_edge(self@, s);
                assert(map@[sp.id()] == Some(m@[sp]));
            }
            match map[sp.0] {
                Some(x) => x == on.parents[0].0,
                None => false,
            }
        } else {
            false
        };
        if !linked {
            return Some(Some(entries_total_order(&sn.parents, &on.parents, by_data)));
        }
        let cc = usize_order(sn.children.len(), on.children.len());
        match cc {
            Order::Equal => {},
            _ => {
                return Some(Some(cc));
            },
        }
        let dc = total_order(&sn.data, &on.data);
        match dc {
            Order::Equal => None,
            _ => Some(Some(dc)),
        }
    }

    /// Walk the pre-order below `sroots[i]` in `self` and below `oroots[i]`
    /// in `other` in lockstep, for each `i` in turn, comparing each visited
    /// pair of nodes by `partial_cmp`, and return the decision of the first
    /// pair that decides, if any.
    pub fn walk_partial_order(
        &self,
        other: &Self,
        sroots: &Vec<NodeIdx>,
        oroots: &Vec<NodeIdx>,
        by_data: bool,
    ) -> (r: Option<Option<Order>>) where D: PartialOrd, P: PartialOrd
        requires
            self@.wf(),
            other@.wf(),
            sroots@.len() == oroots@.len(),
            forall|k: int| 0 <= k < sroots@.len() ==> self@.has(#[trigger] sroots@[k]),
            forall|k: int| 0 <= k < oroots@.len() ==> other@.has(#[trigger] oroots@[k]),
            walk_total_until(self@, other@, paired_walks(self@, other@, sroots@, oroots@)),
        ensures
            (partial_sound::<D>() && (by_data ==> partial_sound::<P>())) ==> r == walk_decision(
                self@,
                other@,
                paired_walks(self@, other@, sroots@, oroots@),
                by_data,
                partial_orders::<D>(),
                partial_orders::<P>(),
            ),
    {
        let ghost sv = self@;
        let ghost ov = other@;
        let ghost all = paired_walks(sv, ov, sroots@, oroots@);
        let ghost dord = partial_orders::<D>();
        let ghost pord = partial_orders::<P>();
        let ghost sound = partial_sound::<D>() && (by_data ==> partial_sound::<P>());
        let n_slots = self.physical_size().get();
        let mut map: Vec<Option<NodeIdx>> = Vec::new();
        while map.len() < n_slots
            invariant
                n_slots == sv.nodes.len(),
                map@.len() <= n_slots,
                forall|i: int| 0 <= i < map@.len() ==> map@[i] is None,
            decreases n_slots - map@.len(),
        {
            map.push(None);
        }
        proof {
            assert(sroots@.take(0) =~= Seq::<NodeIdx>::empty());
            assert(paired_walks(sv, ov, sroots@.take(0), oroots@) =~= Seq::<(NodeIdx, NodeIdx)>::empty());
            assert(map_matches(map@, Map::empty()));
        }
        let mut i: usize = 0;
        while i < sroots.len()
            invariant
                sv == self@,
                ov == other@,
                sv.wf(),
                ov.wf(),
                sroots@.len() == oroots@.len(),
                forall|k: int| 0 <= k < sroots@.len() ==> sv.has(#[trigger] sroots@[k]),
                forall|k: int| 0 <= k < oroots@.len() ==> ov.has(#[trigger] oroots@[k]),
                all == paired_walks(sv, ov, sroots@, oroots@),
                walk_total_until(sv, ov, all),
                walk_shapes_agree(sv, ov, paired_walks(sv, ov, sroots@.take(i as int), oroots@)),
                0 <= i <= sroots@.len(),
                map@.len() == sv.nodes.len(),
                map_matches(map@, pair_map(paired_walks(sv, ov, sroots@.take(i as int), oroots@))),
                all.take(paired_walks(sv, ov, sroots@.take(i as int), oroots@).len() as int)
                    == paired_walks(sv, ov, sroots@.take(i as int), oroots@),
                dord == partial_orders::<D>(),
                pord == partial_orders::<P>(),
                sound == (partial_sound::<D>() && (by_data ==> partial_sound::<P>())),
                sound ==> walk_decision(sv, ov, paired_walks(sv, ov, sroots@.take(i as int), oroots@), by_data, dord, pord) is None,
            decreases sroots@.len() - i,
        {
            let sorder = self.dfs(sroots[i]);
            let oorder = other.dfs(oroots[i]);
            proof {
                lemma_preorder_in_range(sv, sroots@[i as int]);
                lemma_preorder_in_range(ov, oroots@[i as int]);
                lemma_paired_walks_step(sv, ov, sroots@, oroots@, i as int);
            }
            let ghost base = paired_walks(sv, ov, sroots@.take(i as int), oroots@);
            let ghost z = crate::arena::zip_idxs(sorder@, oorder@);
            let n = if sorder.len() <= oorder.len() {
                sorder.len()
            } else {
                oorder.len()
            };
            let mut j: usize = 0;
            assert(base + z.take(0) =~= base);
            while j < n
                invariant
                    sv == self@,
                    ov == other@,
                    sv.wf(),
                    ov.wf(),
                    z == crate::arena::zip_idxs(sorder@, oorder@),
                    n == z.len(),
                    forall|k: int| 0 <= k < sorder@.len() ==> sv.has(#[trigger] sorder@[k]),
                    forall|k: int| 0 <= k < oorder@.len() ==> ov.has(#[trigger] oorder@[k]),
                    all.take((base + z).len() as int) == base + z,
                    (base + z).len() <= all.len(),
                    all == paired_walks(sv, ov, sroots@, oroots@),
                    walk_total_until(sv, ov, all),
                    walk_shapes_agree(sv, ov, base + z.take(j as int)),
                    0 <= j <= n,
                    map@.len() == sv.nodes.len(),
                    map_matches(map@, pair_map(base + z.take(j as int))),
                    dord == partial_orders::<D>(),
                    pord == partial_orders::<P>(),
                    sound == (partial_sound::<D>() && (by_data ==> partial_sound::<P>())),
                    sound ==> walk_decision(sv, ov, base + z.take(j as int), by_data, dord, pord) is None,
                decreases n - j,
            {
                let s = sorder[j];
                let o = oorder[j];
                assert(z[j as int] == (s, o));
                assert(sv.has(sorder@[j as int]));
                assert(ov.has(oorder@[j as int]));
                let ghost done = base + z.take(j as int);
                let ghost done2 = base + z.take(j + 1);
                proof {
                    assert(done2 =~= done.push((s, o)));
                    assert(done2.drop_last() =~= done);
                    lemma_map_matches_insert(map@, pair_map(done), s, o);
                    assert(all.take(done2.len() as int) =~= done2) by {
                        assert(all.take((base + z).len() as int).take(done2.len() as int) =~= done2);
                    }
                    assert(all.take(done.len() as int) =~= done) by {
                        assert(all.take((base + z).len() as int).take(done.len() as int) =~= done);
                    }
                    lemma_walk_total_until_at(sv, ov, all, done2.len() - 1);
                    assert(all[done2.len() - 1] == done2[done2.len() - 1]);
                    assert(all[done2.len() - 1] == (s, o));
                }
                map.set(s.0, Some(o));
                let d = self.pair_partial_decision(other, &map, Ghost(pair_map(done2)), s, o, by_data);
                if d.is_some() {
                    proof {
                        if sound {
                            assert(walk_decision(sv, ov, done2, by_data, dord, pord) == d);
                            let rest = all.subrange(done2.len() as int, all.len() as int);
                            lemma_walk_decision_stuck(sv, ov, done2, rest, by_data, dord, pord);
                            assert(done2 + rest =~= all);
                        }
                    }
                    return d;
                }
                assert(walk_shapes_agree(sv, ov, done2));
                j = j + 1;
            }
            proof {
                assert(z.take(j as int) =~= z);
                assert(sroots@.take(i + 1).drop_last() =~= sroots@.take(i as int));
            }
            i = i + 1;
        }
        proof {
            assert(sroots@.take(i as int) =~= sroots@);
        }
        None
    }

    /// Walk the pre-order below `sroots[i]` in `self` and below `oroots[i]`
    /// in `other` in lockstep, for each `i` in turn, comparing each visited
    /// pair of nodes by `cmp`, and return the decision of the first
    /// pair that decides, if any.
    pub fn walk_total_order(
        &self,
        other: &Self,
        sroots: &Vec<NodeIdx>,
        oroots: &Vec<NodeIdx>,
        by_data: bool,
    ) -> (r: Option<Option<Order>>) where D: Ord, P: Ord
        requires
            self@.wf(),
            other@.wf(),
            sroots@.len() == oroots@.len(),
            forall|k: int| 0 <= k < sroots@.len() ==> self@.has(#[trigger] sroots@[k]),
            forall|k: int| 0 <= k < oroots@.len() ==> other@.has(#[trigger] oroots@[k]),
            walk_total_until(self@, other@, paired_walks(self@, other@, sroots@, oroots@)),
        ensures
            (total_sound::<D>() && (by_data ==> total_sound::<P>())) ==> r == walk_decision(
                self@,
                other@,
                paired_walks(self@, other@, sroots@, oroots@),
                by_data,
                total_orders::<D>(),
                total_orders::<P>(),
            ),
    {
        let ghost sv = self@;
        let ghost ov = other@;
        let ghost all = paired_walks(sv, ov, sroots@, oroots@);
        let ghost dord = total_orders::<D>();
        let ghost pord = total_orders::<P>();
        let ghost sound = total_sound::<D>() && (by_data ==> total_sound::<P>());
        let n_slots = self.physical_size().get();
        let mut map: Vec<Option<NodeIdx>> = Vec::new();
        while map.len() < n_slots
            invariant
                n_slots == sv.nodes.len(),
                map@.len() <= n_slots,
                forall|i: int| 0 <= i < map@.len() ==> map@[i] is None,
            decreases n_slots - map@.len(),
        {
            map.push(None);
        }
        proof {
            assert(sroots@.take(0) =~= Seq::<NodeIdx>::empty());
            assert(paired_walks(sv, ov, sroots@.take(0), oroots@) =~= Seq::<(NodeIdx, NodeIdx)>::empty());
            assert(map_matches(map@, Map::empty()));
        }
        let mut i: usize = 0;
        while i < sroots.len()
            invariant
                sv == self@,
                ov == other@,
                sv.wf(),
                ov.wf(),
                sroots@.len() == oroots@.len(),
                forall|k: int| 0 <= k < sroots@.len() ==> sv.has(#[trigger] sroots@[k]),
                forall|k: int| 0 <= k < oroots@.len() ==> ov.has(#[trigger] oroots@[k]),
                all == paired_walks(sv, ov, sroots@, oroots@),
                walk_total_until(sv, ov, all),
                walk_shapes_agree(sv, ov, paired_walks(sv, ov, sroots@.take(i as int), oroots@)),
                0 <= i <= sroots@.len(),
                map@.len() == sv.nodes.len(),
                map_matches(map@, pair_map(paired_walks(sv, ov, sroots@.take(i as int), oroots@))),
                all.take(paired_walks(sv, ov, sroots@.take(i as int), oroots@).len() as int)
                    == paired_walks(sv, ov, sroots@.take(i as int), oroots@),
                dord == total_orders::<D>(),
                pord == total_orders::<P>(),
                sound == (total_sound::<D>() && (by_data ==> total_sound::<P>())),
                sound ==> walk_decision(sv, ov, paired_walks(sv, ov, sroots@.take(i as int), oroots@), by_data, dord, pord) is None,
            decreases sroots@.len() - i,
        {
            let sorder = self.dfs(sroots[i]);
            let oorder = other.dfs(oroots[i]);
            proof {
                lemma_preorder_in_range(sv, sroots@[i as int]);
                lemma_preorder_in_range(ov, oroots@[i as int]);
                lemma_paired_walks_step(sv, ov, sroots@, oroots@, i as int);
            }
            let ghost base = paired_walks(sv, ov, sroots@.take(i as int), oroots@);
            let ghost z = crate::arena::zip_idxs(sorder@, oorder@);
            let n = if sorder.len() <= oorder.len() {
                sorder.len()
            } else {
                oorder.len()
            };
            let mut j: usize = 0;
            assert(base + z.take(0) =~= base);
            while j < n
                invariant
                    sv == self@,
                    ov == other@,
                    sv.wf(),
                    ov.wf(),
                    z == crate::arena::zip_idxs(sorder@, oorder@),
                    n == z.len(),
                    forall|k: int| 0 <= k < sorder@.len() ==> sv.has(#[trigger] sorder@[k]),
                    forall|k: int| 0 <= k < oorder@.len() ==> ov.has(#[trigger] oorder@[k]),
                    all.take((base + z).len() as int) == base + z,
                    (base + z).len() <= all.len(),
                    all == paired_walks(sv, ov, sroots@, oroots@),
                    walk_total_until(sv, ov, all),
                    walk_shapes_agree(sv, ov, base + z.take(j as int)),
                    0 <= j <= n,
                    map@.len() == sv.nodes.len(),
                    map_matches(map@, pair_map(base + z.take(j as int))),
                    dord == total_orders::<D>(),
                    pord == total_orders::<P>(),
                    sound == (total_sound::<D>() && (by_data ==> total_sound::<P>())),
                    sound ==> walk_decision(sv, ov, base + z.take(j as int), by_data, dord, pord) is None,
                decreases n - j,
            {
                let s = sorder[j];
                let o = oorder[j];
                assert(z[j as int] == (s, o));
                assert(sv.has(sorder@[j as int]));
                assert(ov.has(oorder@[j as int]));
                let ghost done = base + z.take(j as int);
                let ghost done2 = base + z.take(j + 1);
                proof {
                    assert(done2 =~= done.push((s, o)));
                    assert(done2.drop_last() =~= done);
                    lemma_map_matches_insert(map@, pair_map(done), s, o);
                    assert(all.take(done2.len() as int) =~= done2) by {
                        assert(all.take((base + z).len() as int).take(done2.len() as int) =~= done2);
                    }
                    assert(all.take(done.len() as int) =~= done) by {
                        assert(all.take((base + z).len() as int).take(done.len() as int) =~= done);
                    }
                    lemma_walk_total_until_at(sv, ov, all, done2.len() - 1);
                    assert(all[done2.len() - 1] == done2[done2.len() - 1]);
                    assert(all[done2.len() - 1] == (s, o));
                }
                map.set(s.0, Some(o));
                let d = self.pair_total_decision(other, &map, Ghost(pair_map(done2)), s, o, by_data);
                if d.is_some() {
                    proof {
                        if sound {
                            assert(walk_decision(sv, ov, done2, by_data, dord, pord) == d);
                            let rest = all.subrange(done2.len() as int, all.len() as int);
                            lemma_walk_decision_stuck(sv, ov, done2, rest, by_data, dord, pord);
                            assert(done2 + rest =~= all);
                        }
                    }
                    return d;
                }
                assert(walk_shapes_agree(sv, ov, done2));
                j = j + 1;
            }
            proof {
                assert(z.take(j as int) =~= z);
                assert(sroots@.take(i + 1).drop_last() =~= sroots@.take(i as int));
            }
            i = i + 1;
        }
        proof {
            assert(sroots@.take(i as int) =~= sroots@);
        }
        None
    }
}

} // verus!
