//! Facts about sequences of `(node index, edge data)` pairs, the shape in
//! which a node stores its parents and its children.

use vstd::prelude::*;
use crate::node::NodeIdx;

verus! {

/// The node indices of a sequence of `(index, edge data)` pairs.
pub open spec fn idxs_of<T>(s: Seq<(NodeIdx, T)>) -> Seq<NodeIdx> {
    s.map_values(|e: (NodeIdx, T)| e.0)
}

/// How many entries of `s` point at `x`.
pub open spec fn count_of<T>(s: Seq<(NodeIdx, T)>, x: NodeIdx) -> nat
    decreases s.len(),
{
    if s.len() == 0 {
        0
    } else {
        (if s[0].0 == x { 1nat } else { 0nat }) + count_of(s.drop_first(), x)
    }
}

/// The position of the leftmost entry of `s` that points at `x`, or `-1`
/// when no entry does.
pub open spec fn first_index<T>(s: Seq<(NodeIdx, T)>, x: NodeIdx) -> int
    decreases s.len(),
{
    if s.len() == 0 {
        -1
    } else if s[0].0 == x {
        0
    } else {
        let r = first_index(s.drop_first(), x);
        if r < 0 {
            -1
        } else {
            r + 1
        }
    }
}

/// `o` is the position of the leftmost entry of `s` that points at `x`,
/// or `None` when no entry does.
pub open spec fn is_first_position<T>(s: Seq<(NodeIdx, T)>, x: NodeIdx, o: Option<usize>) -> bool {
    match o {
        Some(i) => {
            &&& i < s.len()
            &&& s[i as int].0 == x
            &&& forall|j: int| 0 <= j < i ==> s[j].0 != x
        },
        None => forall|j: int| 0 <= j < s.len() ==> s[j].0 != x,
    }
}

/// `s` without its leftmost entry that points at `x` (`s` itself when there
/// is none).
pub open spec fn remove_first<T>(s: Seq<(NodeIdx, T)>, x: NodeIdx) -> Seq<(NodeIdx, T)> {
    if first_index(s, x) < 0 {
        s
    } else {
        s.remove(first_index(s, x))
    }
}

/// `s` after `n` successive removals of its leftmost entry that points at `x`.
pub open spec fn remove_first_n<T>(s: Seq<(NodeIdx, T)>, x: NodeIdx, n: nat) -> Seq<(
    NodeIdx,
    T,
)>
    decreases n,
{
    if n == 0 {
        s
    } else {
        remove_first_n(remove_first(s, x), x, (n - 1) as nat)
    }
}

/// The entries of `s` that point outside of `gone`, in their order.
pub open spec fn without<T>(s: Seq<(NodeIdx, T)>, gone: Set<NodeIdx>) -> Seq<(NodeIdx, T)>
    decreases s.len(),
{
    if s.len() == 0 {
        s
    } else if gone.contains(s[0].0) {
        without(s.drop_first(), gone)
    } else {
        seq![s[0]] + without(s.drop_first(), gone)
    }
}

/// How many entries of a plain index sequence are `x`.
pub open spec fn occurrences(s: Seq<NodeIdx>, x: NodeIdx) -> nat
    decreases s.len(),
{
    if s.len() == 0 {
        0
    } else {
        (if s[0] == x { 1nat } else { 0nat }) + occurrences(s.drop_first(), x)
    }
}

/// The indices of `s` are those of its entries, position by position.
pub proof fn lemma_idxs_of_index<T>(s: Seq<(NodeIdx, T)>, i: int)
    requires
        0 <= i < s.len(),
    ensures
        idxs_of(s).len() == s.len(),
        idxs_of(s)[i] == s[i].0,
{
}

/// A first position of `x` in `s`, as a search reports it, is
/// `first_index(s, x)`; no position is reported exactly when `s` holds no
/// entry for `x`.
pub proof fn lemma_first_position_is_first_index<T>(s: Seq<(NodeIdx, T)>, x: NodeIdx, o: Option<usize>)
    requires
        is_first_position(s, x, o),
    ensures
        match o {
            Some(i) => first_index(s, x) == i,
            None => first_index(s, x) == -1,
        },
        o is None <==> count_of(s, x) == 0,
    decreases s.len(),
{
    if s.len() > 0 {
        let t = s.drop_first();
        match o {
            Some(i) => {
                if i > 0 {
                    assert(s[0].0 != x);
                    assert(is_first_position(t, x, Some((i - 1) as usize))) by {
                        assert forall|j: int| 0 <= j < i - 1 implies t[j].0 != x by {
                            assert(t[j] == s[j + 1]);
                        }
                    }
                    lemma_first_position_is_first_index(t, x, Some((i - 1) as usize));
                }
            },
            None => {
                assert(is_first_position(t, x, None)) by {
                    assert forall|j: int| 0 <= j < t.len() implies t[j].0 != x by {
                        assert(t[j] == s[j + 1]);
                    }
                }
                lemma_first_position_is_first_index(t, x, None);
            },
        }
    }
}

/// `first_index(s, x)` is `-1` or a position of `s` that points at `x`, the
/// leftmost one; it is `-1` exactly when no entry of `s` points at `x`.
pub proof fn lemma_first_index_bounds<T>(s: Seq<(NodeIdx, T)>, x: NodeIdx)
    ensures
        -1 <= first_index(s, x) < s.len(),
        first_index(s, x) >= 0 ==> s[first_index(s, x)].0 == x,
        first_index(s, x) >= 0 <==> count_of(s, x) > 0,
        forall|j: int| 0 <= j < s.len() && j < first_index(s, x) ==> s[j].0 != x,
        first_index(s, x) < 0 ==> forall|j: int| 0 <= j < s.len() ==> s[j].0 != x,
    decreases s.len(),
{
    if s.len() > 0 {
        let t = s.drop_first();
        lemma_first_index_bounds(t, x);
        if s[0].0 != x {
            let i = first_index(t, x);
            if i >= 0 {
                assert(0 <= i < t.len());
                assert(s[i + 1] == t[i]);
                assert(first_index(s, x) == i + 1);
                assert forall|j: int| 0 <= j < i + 1 implies s[j].0 != x by {
                    if j > 0 {
                        assert(s[j] == t[j - 1]);
                        assert(t[j - 1].0 != x);
                    }
                }
            } else {
                assert forall|j: int| 0 <= j < s.len() implies s[j].0 != x by {
                    if j > 0 {
                        assert(s[j] == t[j - 1]);
                    }
                }
            }
        }
    }
}

/// Pushing an entry counts one more for the node it points at.
pub proof fn lemma_count_push<T>(s: Seq<(NodeIdx, T)>, e: (NodeIdx, T), x: NodeIdx)
    ensures
        count_of(s.push(e), x) == count_of(s, x) + if e.0 == x { 1nat } else { 0nat },
    decreases s.len(),
{
    if s.len() > 0 {
        assert(s.push(e).drop_first() == s.drop_first().push(e));
        lemma_count_push(s.drop_first(), e, x);
    } else {
        assert(s.push(e).drop_first() == s);
    }
}

/// Inserting an entry counts one more for the node it points at.
pub proof fn lemma_count_insert<T>(s: Seq<(NodeIdx, T)>, i: int, e: (NodeIdx, T), x: NodeIdx)
    requires
        0 <= i <= s.len(),
    ensures
        count_of(s.insert(i, e), x) == count_of(s, x) + if e.0 == x { 1nat } else { 0nat },
    decreases s.len(),
{
    if i == 0 {
        assert(s.insert(i, e).drop_first() == s);
    } else {
        assert(s.insert(i, e).drop_first() == s.drop_first().insert(i - 1, e));
        lemma_count_insert(s.drop_first(), i - 1, e, x);
    }
}

/// Removing an entry counts one less for the node it points at.
pub proof fn lemma_count_remove<T>(s: Seq<(NodeIdx, T)>, i: int, x: NodeIdx)
    requires
        0 <= i < s.len(),
    ensures
        count_of(s.remove(i), x) + (if s[i].0 == x { 1nat } else { 0nat }) == count_of(s, x),
    decreases s.len(),
{
    if i == 0 {
        assert(s.remove(i) == s.drop_first());
    } else {
        assert(s.remove(i).drop_first() == s.drop_first().remove(i - 1));
        lemma_count_remove(s.drop_first(), i - 1, x);
    }
}

/// Removing the leftmost entry for `x` counts one less for `x`, if there
/// was one, and the same for every other node.
pub proof fn lemma_remove_first_count<T>(s: Seq<(NodeIdx, T)>, x: NodeIdx, y: NodeIdx)
    ensures
        count_of(remove_first(s, x), y) + (if count_of(s, x) > 0 && x == y {
            1nat
        } else {
            0nat
        }) == count_of(s, y),
{
    lemma_first_index_bounds(s, x);
    if first_index(s, x) >= 0 {
        lemma_count_remove(s, first_index(s, x), y);
    }
}

/// Leaving out the entries for `x` keeps `s` when it has none.
pub proof fn lemma_without_none<T>(s: Seq<(NodeIdx, T)>, x: NodeIdx)
    requires
        count_of(s, x) == 0,
    ensures
        without(s, set![x]) == s,
    decreases s.len(),
{
    if s.len() > 0 {
        lemma_without_none(s.drop_first(), x);
        assert(s == seq![s[0]] + s.drop_first());
    }
}

/// Leaving out the entries for `x` gives the same, whether or not its
/// leftmost entry was removed before.
pub proof fn lemma_without_remove_first<T>(s: Seq<(NodeIdx, T)>, x: NodeIdx)
    ensures
        without(remove_first(s, x), set![x]) == without(s, set![x]),
    decreases s.len(),
{
    if s.len() > 0 {
        let t = s.drop_first();
        if s[0].0 == x {
            assert(first_index(s, x) == 0);
            assert(remove_first(s, x) == t);
        } else {
            lemma_without_remove_first(t, x);
            if first_index(t, x) >= 0 {
                lemma_first_index_bounds(t, x);
                assert(remove_first(s, x) == seq![s[0]] + remove_first(t, x));
                assert((seq![s[0]] + remove_first(t, x)).drop_first() == remove_first(t, x));
                assert((seq![s[0]] + remove_first(t, x))[0] == s[0]);
            } else {
                assert(remove_first(s, x) == s);
            }
        }
    }
}

/// Removing the leftmost entry for `x` as often as `s` has entries for `x`
/// leaves out all of them.
pub proof fn lemma_remove_first_n_all<T>(s: Seq<(NodeIdx, T)>, x: NodeIdx, n: nat)
    requires
        n == count_of(s, x),
    ensures
        remove_first_n(s, x, n) == without(s, set![x]),
    decreases n,
{
    if n == 0 {
        lemma_without_none(s, x);
    } else {
        lemma_remove_first_count(s, x, x);
        lemma_remove_first_n_all(remove_first(s, x), x, (n - 1) as nat);
        lemma_without_remove_first(s, x);
    }
}

/// Removing the leftmost entry for `x` once more after `n` times.
pub proof fn lemma_remove_first_n_step<T>(s: Seq<(NodeIdx, T)>, x: NodeIdx, n: nat)
    ensures
        remove_first_n(s, x, n + 1) == remove_first(remove_first_n(s, x, n), x),
    decreases n,
{
    if n > 0 {
        lemma_remove_first_n_step(remove_first(s, x), x, (n - 1) as nat);
        assert(remove_first_n(s, x, n + 1) == remove_first_n(remove_first(s, x), x, n));
        assert(remove_first_n(s, x, n) == remove_first_n(remove_first(s, x), x, (n - 1) as nat));
    } else {
        assert(remove_first_n(s, x, 1) == remove_first_n(remove_first(s, x), x, 0));
    }
}

/// Leaving out the entries for the nodes of `a`, then those for `x`, leaves
/// out those for the nodes of `a` and `x` at once.
pub proof fn lemma_without_without<T>(s: Seq<(NodeIdx, T)>, a: Set<NodeIdx>, x: NodeIdx)
    ensures
        without(without(s, a), set![x]) == without(s, a.insert(x)),
    decreases s.len(),
{
    if s.len() > 0 {
        let t = s.drop_first();
        lemma_without_without(t, a, x);
        if !a.contains(s[0].0) {
            let w = seq![s[0]] + without(t, a);
            assert(w.drop_first() == without(t, a));
            assert(w[0] == s[0]);
        }
    }
}

/// Leaving out nothing keeps `s`.
pub proof fn lemma_without_empty<T>(s: Seq<(NodeIdx, T)>)
    ensures
        without(s, Set::empty()) == s,
    decreases s.len(),
{
    if s.len() > 0 {
        lemma_without_empty(s.drop_first());
        assert(s == seq![s[0]] + s.drop_first());
    }
}

/// Leaving out every node that `s` points at leaves nothing.
pub proof fn lemma_without_skip<T>(s: Seq<(NodeIdx, T)>, gone: Set<NodeIdx>)
    requires
        forall|k: int| 0 <= k < s.len() ==> gone.contains(#[trigger] s[k].0),
    ensures
        without(s, gone).len() == 0,
    decreases s.len(),
{
    if s.len() > 0 {
        assert(gone.contains(s[0].0));
        let t = s.drop_first();
        assert forall|k: int| 0 <= k < t.len() implies gone.contains(#[trigger] t[k].0) by {
            assert(t[k] == s[k + 1]);
        }
        lemma_without_skip(t, gone);
    }
}

/// What is left after leaving out `gone` are entries of `s` that point at
/// no node of `gone`.
pub proof fn lemma_without_members<T>(s: Seq<(NodeIdx, T)>, gone: Set<NodeIdx>, k: int)
    requires
        0 <= k < without(s, gone).len(),
    ensures
        !gone.contains(without(s, gone)[k].0),
        s.contains(without(s, gone)[k]),
    decreases s.len(),
{
    if s.len() > 0 {
        let t = s.drop_first();
        if gone.contains(s[0].0) {
            lemma_without_members(t, gone, k);
            let e = without(s, gone)[k];
            let j = choose|j: int| 0 <= j < t.len() && t[j] == e;
            assert(s[j + 1] == e);
        } else if k > 0 {
            assert(without(s, gone)[k] == without(t, gone)[k - 1]);
            lemma_without_members(t, gone, k - 1);
            let e = without(s, gone)[k];
            let j = choose|j: int| 0 <= j < t.len() && t[j] == e;
            assert(s[j + 1] == e);
        } else {
            assert(s[0] == without(s, gone)[0]);
        }
    }
}

/// Leaving out `gone` counts no entry for its nodes and as many as before
/// for every other node.
pub proof fn lemma_count_without<T>(s: Seq<(NodeIdx, T)>, gone: Set<NodeIdx>, x: NodeIdx)
    ensures
        count_of(without(s, gone), x) == if gone.contains(x) { 0 } else { count_of(s, x) },
    decreases s.len(),
{
    if s.len() > 0 {
        let t = s.drop_first();
        lemma_count_without(t, gone, x);
        if !gone.contains(s[0].0) {
            let w = seq![s[0]] + without(t, gone);
            assert(w.drop_first() == without(t, gone));
            assert(w[0] == s[0]);
        }
    }
}

/// The set of the entries of `s`.
pub open spec fn members(s: Seq<NodeIdx>) -> Set<NodeIdx> {
    Set::new(|y: NodeIdx| s.contains(y))
}

/// Pushing a node counts one more occurrence of it.
pub proof fn lemma_occurrences_push(s: Seq<NodeIdx>, e: NodeIdx, x: NodeIdx)
    ensures
        occurrences(s.push(e), x) == occurrences(s, x) + if e == x { 1nat } else { 0nat },
    decreases s.len(),
{
    if s.len() > 0 {
        assert(s.push(e).drop_first() == s.drop_first().push(e));
        lemma_occurrences_push(s.drop_first(), e, x);
    } else {
        assert(s.push(e).drop_first() == s);
    }
}

/// The indices of `s` hold `x` as often as `s` has entries for `x`.
pub proof fn lemma_occurrences_idxs<T>(s: Seq<(NodeIdx, T)>, x: NodeIdx)
    ensures
        occurrences(idxs_of(s), x) == count_of(s, x),
    decreases s.len(),
{
    if s.len() > 0 {
        assert(idxs_of(s).drop_first() == idxs_of(s.drop_first()));
        lemma_occurrences_idxs(s.drop_first(), x);
    }
}

/// `q` with `x` queued at its back, unless `x` is queued already.
pub open spec fn enqueue_one(q: Seq<NodeIdx>, x: NodeIdx) -> Seq<NodeIdx> {
    if q.contains(x) {
        q
    } else {
        q.push(x)
    }
}

/// `q` with the entries of `xs` queued in turn, each one only if it is not
/// queued already.
pub open spec fn enqueue(q: Seq<NodeIdx>, xs: Seq<NodeIdx>) -> Seq<NodeIdx>
    decreases xs.len(),
{
    if xs.len() == 0 {
        q
    } else {
        enqueue_one(enqueue(q, xs.drop_last()), xs.last())
    }
}

/// Queuing `x` keeps the queue as a prefix, adds `x` and nothing else, and
/// keeps a queue without duplicates free of them.
pub proof fn lemma_enqueue_one(q: Seq<NodeIdx>, x: NodeIdx)
    ensures
        enqueue_one(q, x).take(q.len() as int) == q,
        enqueue_one(q, x).len() <= q.len() + 1,
        forall|y: NodeIdx| #[trigger] enqueue_one(q, x).contains(y) <==> (q.contains(y) || y == x),
        q.no_duplicates() ==> enqueue_one(q, x).no_duplicates(),
{
    let r = enqueue_one(q, x);
    assert(r.take(q.len() as int) =~= q);
    if !q.contains(x) {
        assert(r[q.len() as int] == x);
        assert forall|y: NodeIdx| #[trigger] r.contains(y) implies (q.contains(y) || y == x) by {
            let k = choose|k: int| 0 <= k < r.len() && r[k] == y;
            if k < q.len() {
                assert(q[k] == y);
            }
        }
        assert forall|y: NodeIdx| q.contains(y) implies #[trigger] r.contains(y) by {
            let k = choose|k: int| 0 <= k < q.len() && q[k] == y;
            assert(r[k] == y);
        }
    }
}

/// Queuing the entries of `xs` keeps the queue as a prefix, adds the
/// entries of `xs` and nothing else, at most one per entry, and keeps a
/// queue without duplicates free of them.
pub proof fn lemma_enqueue(q: Seq<NodeIdx>, xs: Seq<NodeIdx>)
    ensures
        enqueue(q, xs).take(q.len() as int) == q,
        q.len() <= enqueue(q, xs).len() <= q.len() + xs.len(),
        forall|y: NodeIdx| #[trigger] enqueue(q, xs).contains(y) <==> (q.contains(y) || xs.contains(y)),
        q.no_duplicates() ==> enqueue(q, xs).no_duplicates(),
    decreases xs.len(),
{
    if xs.len() > 0 {
        let t = xs.drop_last();
        let p = enqueue(q, t);
        lemma_enqueue(q, t);
        lemma_enqueue_one(p, xs.last());
        assert(enqueue(q, xs).take(q.len() as int) =~= p.take(q.len() as int));
        assert forall|y: NodeIdx| #[trigger] enqueue(q, xs).contains(y) <==> (q.contains(y) || xs.contains(y)) by {
            if t.contains(y) {
                let k = choose|k: int| 0 <= k < t.len() && t[k] == y;
                assert(xs[k] == y);
            }
            if xs.contains(y) && y != xs.last() {
                let k = choose|k: int| 0 <= k < xs.len() && xs[k] == y;
                assert(t[k] == y);
            }
            if y == xs.last() {
                assert(xs[xs.len() - 1] == y);
            }
        }
    } else {
        assert(q.take(q.len() as int) =~= q);
    }
}

/// An entry of `s` counts for the node it points at.
pub proof fn lemma_count_positive<T>(s: Seq<(NodeIdx, T)>, i: int)
    requires
        0 <= i < s.len(),
    ensures
        count_of(s, s[i].0) > 0,
    decreases i,
{
    if i > 0 {
        lemma_count_positive(s.drop_first(), i - 1);
        assert(s.drop_first()[i - 1] == s[i]);
    }
}

/// Queuing entries that are not queued yet and occur once each appends
/// them all.
pub proof fn lemma_enqueue_fresh(q: Seq<NodeIdx>, xs: Seq<NodeIdx>)
    requires
        forall|k: int| 0 <= k < xs.len() ==> !q.contains(#[trigger] xs[k]),
        xs.no_duplicates(),
    ensures
        enqueue(q, xs) == q + xs,
    decreases xs.len(),
{
    if xs.len() > 0 {
        let t = xs.drop_last();
        assert forall|k: int| 0 <= k < t.len() implies !q.contains(#[trigger] t[k]) by {
            assert(t[k] == xs[k]);
        }
        assert forall|a: int, b: int| 0 <= a < t.len() && 0 <= b < t.len() && a != b implies t[a] != t[b] by {
            assert(t[a] == xs[a] && t[b] == xs[b]);
        }
        lemma_enqueue_fresh(q, t);
        let x = xs.last();
        assert(xs[xs.len() - 1] == x);
        if (q + t).contains(x) {
            let k = choose|k: int| 0 <= k < (q + t).len() && (q + t)[k] == x;
            if k < q.len() {
                assert(q[k] == x);
            } else {
                assert(t[k - q.len()] == x);
                assert(xs[k - q.len()] == x);
            }
        }
        assert((q + t).push(x) =~= q + xs);
    }
}

/// Leaving out `a` or `b` gives the same when they agree on every entry.
pub proof fn lemma_without_agree<T>(s: Seq<(NodeIdx, T)>, a: Set<NodeIdx>, b: Set<NodeIdx>)
    requires
        forall|k: int| 0 <= k < s.len() ==> (a.contains(#[trigger] s[k].0) <==> b.contains(s[k].0)),
    ensures
        without(s, a) == without(s, b),
    decreases s.len(),
{
    if s.len() > 0 {
        let t = s.drop_first();
        assert forall|k: int| 0 <= k < t.len() implies (a.contains(#[trigger] t[k].0) <==> b.contains(t[k].0)) by {
            assert(t[k] == s[k + 1]);
        }
        lemma_without_agree(t, a, b);
        assert(a.contains(s[0].0) <==> b.contains(s[0].0));
    }
}

/// A list has at most as many entries for `x` as it has entries.
pub proof fn lemma_count_le_len<T>(s: Seq<(NodeIdx, T)>, x: NodeIdx)
    ensures
        count_of(s, x) <= s.len(),
    decreases s.len(),
{
    if s.len() > 0 {
        lemma_count_le_len(s.drop_first(), x);
    }
}

/// Two entries for the same node count twice.
pub proof fn lemma_count_two<T>(s: Seq<(NodeIdx, T)>, i: int, j: int)
    requires
        0 <= i < j < s.len(),
        s[i].0 == s[j].0,
    ensures
        count_of(s, s[i].0) >= 2,
    decreases i,
{
    let t = s.drop_first();
    if i == 0 {
        lemma_count_positive(t, j - 1);
        assert(t[j - 1] == s[j]);
    } else {
        assert(t[i - 1] == s[i] && t[j - 1] == s[j]);
        lemma_count_two(t, i - 1, j - 1);
    }
}

/// A list with at most one entry for each node has no repeated index.
pub proof fn lemma_idxs_unique<T>(s: Seq<(NodeIdx, T)>)
    requires
        forall|x: NodeIdx| #[trigger] count_of(s, x) <= 1,
    ensures
        idxs_of(s).no_duplicates(),
{
    assert forall|a: int, b: int| 0 <= a < idxs_of(s).len() && 0 <= b < idxs_of(s).len() && a != b implies idxs_of(
        s,
    )[a] != idxs_of(s)[b] by {
        if idxs_of(s)[a] == idxs_of(s)[b] {
            if a < b {
                lemma_count_two(s, a, b);
            } else {
                lemma_count_two(s, b, a);
            }
            assert(count_of(s, s[a].0) <= 1);
        }
    }
}

/// Removing a value from a sequence without repeats leaves one without
/// repeats, holding every other entry.
pub proof fn lemma_remove_value_unique<A>(s: Seq<A>, v: A)
    requires
        s.no_duplicates(),
    ensures
        s.remove_value(v).no_duplicates(),
        forall|r: A| #[trigger] s.remove_value(v).contains(r) <==> (s.contains(r) && r != v),
{
    s.index_of_first_ensures(v);
    match s.index_of_first(v) {
        Some(i) => {
            let t = s.remove(i);
            assert forall|a: int, b: int| 0 <= a < t.len() && 0 <= b < t.len() && a != b implies t[a] != t[b] by {
                let a2 = if a < i { a } else { a + 1 };
                let b2 = if b < i { b } else { b + 1 };
                assert(t[a] == s[a2] && t[b] == s[b2]);
            }
            assert forall|r: A| #[trigger] t.contains(r) <==> (s.contains(r) && r != v) by {
                if t.contains(r) {
                    let a = choose|a: int| 0 <= a < t.len() && t[a] == r;
                    let a2 = if a < i { a } else { a + 1 };
                    assert(s[a2] == r);
                    assert(a2 != i);
                }
                if s.contains(r) && r != v {
                    let a = choose|a: int| 0 <= a < s.len() && s[a] == r;
                    assert(a != i);
                    if a < i {
                        assert(t[a] == r);
                    } else {
                        assert(t[a - 1] == r);
                    }
                }
            }
        },
        None => {},
    }
}

} // verus!
