//! Graphs in the `d2` diagram language: nodes and edges kept in order, and
//! their rendering as `d2` source code.

use vstd::prelude::*;
use vstd::string::StringExecFns;
use crate::node::NodeIdx;
use crate::order::Order;
use crate::text::{decimal, occurs_in, push_decimal};

verus! {

/// The direction in which a `d2` diagram is laid out.
#[derive(Clone, Copy, Debug, PartialEq, Eq, Structural, PartialOrd, Ord, Hash)]
pub enum D2Direction {
    Up,
    Down,
    Left,
    Right,
}

impl Default for D2Direction {
    fn default() -> (r: Self)
        ensures
            r == D2Direction::Down,
    {
        D2Direction::Down
    }
}

/// The identifier of a node of a `d2` diagram.
#[derive(Clone, Copy, Debug, Default, PartialEq, Eq, Structural, PartialOrd, Ord, Hash)]
pub struct D2NodeId(pub usize);

impl From<usize> for D2NodeId {
    fn from(id: usize) -> (r: Self)
        ensures
            r == D2NodeId(id),
    {
        D2NodeId(id)
    }
}

impl vstd::std_specs::convert::FromSpecImpl<usize> for D2NodeId {
    open spec fn obeys_from_spec() -> bool {
        true
    }

    open spec fn from_spec(id: usize) -> D2NodeId {
        D2NodeId(id)
    }
}

impl From<NodeIdx> for D2NodeId {
    fn from(idx: NodeIdx) -> (r: Self)
        ensures
            r == D2NodeId(idx.0),
    {
        D2NodeId(idx.0)
    }
}

impl vstd::std_specs::convert::FromSpecImpl<NodeIdx> for D2NodeId {
    open spec fn obeys_from_spec() -> bool {
        true
    }

    open spec fn from_spec(idx: NodeIdx) -> D2NodeId {
        D2NodeId(idx.0)
    }
}

impl std::ops::Deref for D2NodeId {
    type Target = usize;

    fn deref(&self) -> (r: &usize)
        ensures
            *r == self.0,
    {
        &self.0
    }
}

/// A node of a `d2` diagram: its identifier and its text.
#[derive(Clone, Debug, PartialEq, Eq, PartialOrd, Ord, Hash)]
pub struct D2Node {
    pub id: D2NodeId,
    pub text: String,
}

/// The style of an edge of a `d2` diagram.
#[derive(Clone, Debug, PartialEq, Eq, PartialOrd, Ord, Hash)]
pub struct D2EdgeStyle {
    pub stroke: Option<String>,
}

/// The properties of an edge of a `d2` diagram.
#[derive(Clone, Debug, PartialEq, Eq, PartialOrd, Ord, Hash)]
pub struct D2EdgeProps {
    pub label: Option<String>,
    pub style: Option<D2EdgeStyle>,
}

/// An edge of a `d2` diagram, from `src` to `dst`.
#[derive(Clone, Debug, PartialEq, Eq, PartialOrd, Ord, Hash)]
pub struct D2Edge {
    pub src: D2NodeId,
    pub dst: D2NodeId,
    pub props: D2EdgeProps,
}

/// The abstract value of a `D2Node`.
pub ghost struct D2NodeView {
    pub id: usize,
    pub text: Seq<char>,
}

/// The abstract value of a `D2Edge`: its ends, its label, and the stroke of
/// its style (`None` without a style).
pub ghost struct D2EdgeView {
    pub src: usize,
    pub dst: usize,
    pub label: Option<Seq<char>>,
    pub style: Option<Option<Seq<char>>>,
}

/// The text of `s`, if any.
pub open spec fn text_of(s: Option<String>) -> Option<Seq<char>> {
    match s {
        Some(t) => Some(t@),
        None => None,
    }
}

impl D2Node {
    /// The abstract value of `self`.
    pub open spec fn view(&self) -> D2NodeView {
        D2NodeView { id: self.id.0, text: self.text@ }
    }
}

impl D2Edge {
    /// The abstract value of `self`.
    pub open spec fn view(&self) -> D2EdgeView {
        D2EdgeView {
            src: self.src.0,
            dst: self.dst.0,
            label: text_of(self.props.label),
            style: match self.props.style {
                Some(st) => Some(text_of(st.stroke)),
                None => None,
            },
        }
    }
}

/// `o1`, unless it is `Equal`, and `o2` otherwise: the lexicographic
/// combination of two orders.
pub open spec fn then(o1: Order, o2: Order) -> Order {
    if o1 == Order::Equal {
        o2
    } else {
        o1
    }
}

/// The reverse of `o`.
pub open spec fn flip(o: Order) -> Order {
    match o {
        Order::Less => Order::Greater,
        Order::Equal => Order::Equal,
        Order::Greater => Order::Less,
    }
}

/// The order of two integers.
pub open spec fn int_order(a: int, b: int) -> Order {
    if a < b {
        Order::Less
    } else if a > b {
        Order::Greater
    } else {
        Order::Equal
    }
}

/// The order of two characters, by code point.
pub open spec fn char_order(a: char, b: char) -> Order {
    if a < b {
        Order::Less
    } else if a > b {
        Order::Greater
    } else {
        Order::Equal
    }
}

/// The lexicographic order of two texts, by code point.
pub open spec fn text_order(a: Seq<char>, b: Seq<char>) -> Order
    decreases a.len(),
{
    if a.len() == 0 {
        if b.len() == 0 {
            Order::Equal
        } else {
            Order::Less
        }
    } else if b.len() == 0 {
        Order::Greater
    } else {
        then(char_order(a[0], b[0]), text_order(a.drop_first(), b.drop_first()))
    }
}

/// The order of two optional texts: no text comes first.
pub open spec fn opt_text_order(a: Option<Seq<char>>, b: Option<Seq<char>>) -> Order {
    match (a, b) {
        (None, None) => Order::Equal,
        (None, Some(_)) => Order::Less,
        (Some(_), None) => Order::Greater,
        (Some(x), Some(y)) => text_order(x, y),
    }
}

/// The order of two optional styles: no style comes first.
pub open spec fn style_order(a: Option<Option<Seq<char>>>, b: Option<Option<Seq<char>>>) -> Order {
    match (a, b) {
        (None, None) => Order::Equal,
        (None, Some(_)) => Order::Less,
        (Some(_), None) => Order::Greater,
        (Some(x), Some(y)) => opt_text_order(x, y),
    }
}

/// The order of two nodes: by identifier, then by text.
pub open spec fn node_order(a: D2NodeView, b: D2NodeView) -> Order {
    then(int_order(a.id as int, b.id as int), text_order(a.text, b.text))
}

/// The order of two edges by label, then by style.
pub open spec fn edge_props_order(a: D2EdgeView, b: D2EdgeView) -> Order {
    then(opt_text_order(a.label, b.label), style_order(a.style, b.style))
}

/// The order of two edges by destination, then by label and style.
pub open spec fn edge_dst_order(a: D2EdgeView, b: D2EdgeView) -> Order {
    then(int_order(a.dst as int, b.dst as int), edge_props_order(a, b))
}

/// The order of two edges: by source, destination, label and style.
pub open spec fn edge_order(a: D2EdgeView, b: D2EdgeView) -> Order {
    then(int_order(a.src as int, b.src as int), edge_dst_order(a, b))
}

proof fn lemma_int_order(a: int, b: int, c: int)
    ensures
        int_order(a, b) == flip(int_order(b, a)),
        int_order(a, b) == Order::Equal <==> a == b,
        int_order(a, b) == Order::Less && int_order(b, c) == Order::Less ==> int_order(a, c) == Order::Less,
        int_order(a, b) != Order::Greater && int_order(b, c) == Order::Less ==> int_order(a, c) == Order::Less,
        int_order(a, b) == Order::Less && int_order(b, c) != Order::Greater ==> int_order(a, c) == Order::Less,
{
}

/// The order of texts is antisymmetric, tells equal texts apart from
/// others, and is transitive.
pub proof fn lemma_text_order(a: Seq<char>, b: Seq<char>, c: Seq<char>)
    ensures
        text_order(a, b) == flip(text_order(b, a)),
        text_order(a, b) == Order::Equal <==> a == b,
        text_order(a, b) == Order::Less && text_order(b, c) == Order::Less ==> text_order(a, c) == Order::Less,
    decreases a.len(),
{
    if a.len() > 0 && b.len() > 0 && c.len() > 0 {
        lemma_text_order(a.drop_first(), b.drop_first(), c.drop_first());
        
        if a[0] == b[0] && a.drop_first() == b.drop_first() {
            assert forall|i: int| 0 <= i < a.len() implies a[i] == b[i] by {
                if i > 0 {
                    assert(a[i] == a.drop_first()[i - 1]);
                    assert(b[i] == b.drop_first()[i - 1]);
                }
            }
            assert(a =~= b);
        }
    } else if a.len() > 0 && b.len() > 0 {
        lemma_text_order(a.drop_first(), b.drop_first(), b.drop_first());
        
        if a[0] == b[0] && a.drop_first() == b.drop_first() {
            assert forall|i: int| 0 <= i < a.len() implies a[i] == b[i] by {
                if i > 0 {
                    assert(a[i] == a.drop_first()[i - 1]);
                    assert(b[i] == b.drop_first()[i - 1]);
                }
            }
            assert(a =~= b);
        }
    } else if a.len() == 0 && b.len() == 0 {
        assert(a =~= b);
    }
}

/// The order of optional texts has the same properties.
pub proof fn lemma_opt_text_order(a: Option<Seq<char>>, b: Option<Seq<char>>, c: Option<Seq<char>>)
    ensures
        opt_text_order(a, b) == flip(opt_text_order(b, a)),
        opt_text_order(a, b) == Order::Equal <==> a == b,
        opt_text_order(a, b) == Order::Less && opt_text_order(b, c) == Order::Less ==> opt_text_order(a, c)
            == Order::Less,
{
    match (a, b, c) {
        (Some(x), Some(y), Some(z)) => lemma_text_order(x, y, z),
        (Some(x), Some(y), None) => lemma_text_order(x, y, y),
        _ => {},
    }
}

/// The order of optional styles has the same properties.
pub proof fn lemma_style_order(a: Option<Option<Seq<char>>>, b: Option<Option<Seq<char>>>, c: Option<Option<Seq<char>>>)
    ensures
        style_order(a, b) == flip(style_order(b, a)),
        style_order(a, b) == Order::Equal <==> a == b,
        style_order(a, b) == Order::Less && style_order(b, c) == Order::Less ==> style_order(a, c) == Order::Less,
{
    match (a, b, c) {
        (Some(x), Some(y), Some(z)) => lemma_opt_text_order(x, y, z),
        (Some(x), Some(y), None) => lemma_opt_text_order(x, y, y),
        _ => {},
    }
}

/// The order of nodes has the same properties.
pub proof fn lemma_node_order(a: D2NodeView, b: D2NodeView, c: D2NodeView)
    ensures
        node_order(a, b) == flip(node_order(b, a)),
        node_order(a, b) == Order::Equal <==> a == b,
        node_order(a, b) == Order::Less && node_order(b, c) == Order::Less ==> node_order(a, c) == Order::Less,
{
    lemma_int_order(a.id as int, b.id as int, c.id as int);
    lemma_text_order(a.text, b.text, c.text);
}

/// The order of edges has the same properties.
pub proof fn lemma_edge_order(a: D2EdgeView, b: D2EdgeView, c: D2EdgeView)
    ensures
        edge_order(a, b) == flip(edge_order(b, a)),
        edge_order(a, b) == Order::Equal <==> a == b,
        edge_order(a, b) == Order::Less && edge_order(b, c) == Order::Less ==> edge_order(a, c) == Order::Less,
{
    lemma_opt_text_order(a.label, b.label, c.label);
    lemma_style_order(a.style, b.style, c.style);
    lemma_opt_text_order(b.label, c.label, c.label);
    lemma_style_order(b.style, c.style, c.style);
    assert(edge_props_order(a, b) == flip(edge_props_order(b, a)));
    assert(edge_props_order(a, b) == Order::Equal <==> (a.label == b.label && a.style == b.style));
    assert(edge_props_order(a, b) == Order::Less && edge_props_order(b, c) == Order::Less ==> edge_props_order(a, c)
        == Order::Less);
    lemma_int_order(a.dst as int, b.dst as int, c.dst as int);
    assert(edge_dst_order(a, b) == flip(edge_dst_order(b, a)));
    assert(edge_dst_order(a, b) == Order::Equal <==> (a.dst == b.dst && a.label == b.label && a.style == b.style));
    assert(edge_dst_order(a, b) == Order::Less && edge_dst_order(b, c) == Order::Less ==> edge_dst_order(a, c)
        == Order::Less);
    lemma_int_order(a.src as int, b.src as int, c.src as int);
}

/// `ord` is a strict total order with equality as its `Equal`.
pub open spec fn is_total_order<T>(ord: spec_fn(T, T) -> Order) -> bool {
    &&& forall|a: T, b: T| #[trigger] ord(a, b) == flip(ord(b, a))
    &&& forall|a: T, b: T| #[trigger] ord(a, b) == Order::Equal <==> a == b
    &&& forall|a: T, b: T, c: T|
        #[trigger] ord(a, b) == Order::Less && #[trigger] ord(b, c) == Order::Less ==> ord(a, c) == Order::Less
}

/// The entries of `s` are in strictly increasing order.
pub open spec fn is_sorted<T>(s: Seq<T>, ord: spec_fn(T, T) -> Order) -> bool {
    forall|i: int, j: int| 0 <= i < j < s.len() ==> ord(#[trigger] s[i], #[trigger] s[j]) == Order::Less
}

/// How many leading entries of `s` come before `x`.
pub open spec fn lower_bound<T>(s: Seq<T>, x: T, ord: spec_fn(T, T) -> Order) -> int
    decreases s.len(),
{
    if s.len() == 0 {
        0
    } else if ord(s[0], x) == Order::Less {
        1 + lower_bound(s.drop_first(), x, ord)
    } else {
        0
    }
}

/// `s` with `x` inserted in order, unless it holds `x` already: what
/// inserting into an ordered set does.
pub open spec fn sorted_insert<T>(s: Seq<T>, x: T, ord: spec_fn(T, T) -> Order) -> Seq<T> {
    if s.contains(x) {
        s
    } else {
        s.insert(lower_bound(s, x, ord), x)
    }
}

/// The leading entries of `s` that come before `x` are those before
/// `lower_bound(s, x, ord)`, and the entry there, if any, does not.
proof fn lemma_lower_bound_bounds<T>(s: Seq<T>, x: T, ord: spec_fn(T, T) -> Order)
    ensures
        0 <= lower_bound(s, x, ord) <= s.len(),
        forall|k: int| 0 <= k < lower_bound(s, x, ord) ==> ord(#[trigger] s[k], x) == Order::Less,
        lower_bound(s, x, ord) < s.len() ==> ord(s[lower_bound(s, x, ord)], x) != Order::Less,
    decreases s.len(),
{
    if s.len() > 0 && ord(s[0], x) == Order::Less {
        let t = s.drop_first();
        lemma_lower_bound_bounds(t, x, ord);
        assert forall|k: int| 0 <= k < lower_bound(s, x, ord) implies ord(#[trigger] s[k], x) == Order::Less by {
            if k > 0 {
                assert(s[k] == t[k - 1]);
            }
        }
        if lower_bound(s, x, ord) < s.len() {
            assert(s[lower_bound(s, x, ord)] == t[lower_bound(t, x, ord)]);
        }
    }
}

/// Inserting into an ordered sequence is inserting into an ordered set:
/// the result is in order, and holds exactly what `s` held and `x`.
pub proof fn lemma_sorted_insert_is_set_insert<T>(s: Seq<T>, x: T, ord: spec_fn(T, T) -> Order)
    requires
        is_total_order(ord),
        is_sorted(s, ord),
    ensures
        is_sorted(sorted_insert(s, x, ord), ord),
        forall|y: T| #[trigger] sorted_insert(s, x, ord).contains(y) <==> (s.contains(y) || y == x),
{
    if !s.contains(x) {
        let i = lower_bound(s, x, ord);
        lemma_lower_bound_bounds(s, x, ord);
        lemma_sorted_insert(s, x, ord, i);
        let r = s.insert(i, x);
        assert forall|y: T| #[trigger] r.contains(y) <==> (s.contains(y) || y == x) by {
            if r.contains(y) {
                let k = choose|k: int| 0 <= k < r.len() && r[k] == y;
                if k < i {
                    assert(s[k] == y);
                } else if k > i {
                    assert(s[k - 1] == y);
                }
            }
            if s.contains(y) {
                let k = choose|k: int| 0 <= k < s.len() && s[k] == y;
                if k < i {
                    assert(r[k] == y);
                } else {
                    assert(r[k + 1] == y);
                }
            }
            if y == x {
                assert(r[i] == x);
            }
        }
    }
}

/// The nodes and the edges of a `d2` graph behave as ordered sets: adding
/// one keeps them in order, each once, and leaves exactly the ones that
/// were there and the new one.
pub proof fn lemma_d2_adds_are_set_inserts(g: D2GraphView, n: D2NodeView, e: D2EdgeView)
    requires
        is_sorted(g.nodes, node_ord()),
        is_sorted(g.edges, edge_ord()),
    ensures
        is_sorted(sorted_insert(g.nodes, n, node_ord()), node_ord()),
        forall|m: D2NodeView| #[trigger] sorted_insert(g.nodes, n, node_ord()).contains(m) <==> (g.nodes.contains(m) || m == n),
        is_sorted(sorted_insert(g.edges, e, edge_ord()), edge_ord()),
        forall|f: D2EdgeView| #[trigger] sorted_insert(g.edges, e, edge_ord()).contains(f) <==> (g.edges.contains(f) || f == e),
{
    lemma_node_ord_total();
    lemma_edge_ord_total();
    lemma_sorted_insert_is_set_insert(g.nodes, n, node_ord());
    lemma_sorted_insert_is_set_insert(g.edges, e, edge_ord());
}

/// The order of nodes, as a spec function.
pub open spec fn node_ord() -> spec_fn(D2NodeView, D2NodeView) -> Order {
    |a: D2NodeView, b: D2NodeView| node_order(a, b)
}

/// The order of edges, as a spec function.
pub open spec fn edge_ord() -> spec_fn(D2EdgeView, D2EdgeView) -> Order {
    |a: D2EdgeView, b: D2EdgeView| edge_order(a, b)
}

/// The order of nodes is a strict total order.
pub proof fn lemma_node_ord_total()
    ensures
        is_total_order(node_ord()),
{
    let ord = node_ord();
    assert forall|a: D2NodeView, b: D2NodeView| #[trigger] ord(a, b) == flip(ord(b, a)) by {
        lemma_node_order(a, b, b);
    }
    assert forall|a: D2NodeView, b: D2NodeView| #[trigger] ord(a, b) == Order::Equal <==> a == b by {
        lemma_node_order(a, b, b);
    }
    assert forall|a: D2NodeView, b: D2NodeView, c: D2NodeView|
        #[trigger] ord(a, b) == Order::Less && #[trigger] ord(b, c) == Order::Less implies ord(a, c) == Order::Less by {
        lemma_node_order(a, b, c);
    }
}

/// The order of edges is a strict total order.
pub proof fn lemma_edge_ord_total()
    ensures
        is_total_order(edge_ord()),
{
    let ord = edge_ord();
    assert forall|a: D2EdgeView, b: D2EdgeView| #[trigger] ord(a, b) == flip(ord(b, a)) by {
        lemma_edge_order(a, b, b);
    }
    assert forall|a: D2EdgeView, b: D2EdgeView| #[trigger] ord(a, b) == Order::Equal <==> a == b by {
        lemma_edge_order(a, b, b);
    }
    assert forall|a: D2EdgeView, b: D2EdgeView, c: D2EdgeView|
        #[trigger] ord(a, b) == Order::Less && #[trigger] ord(b, c) == Order::Less implies ord(a, c) == Order::Less by {
        lemma_edge_order(a, b, c);
    }
}

/// The position after the entries of `s` that come before `x`.
proof fn lemma_lower_bound<T>(s: Seq<T>, x: T, ord: spec_fn(T, T) -> Order, i: int)
    requires
        0 <= i <= s.len(),
        forall|k: int| 0 <= k < i ==> ord(#[trigger] s[k], x) == Order::Less,
        i < s.len() ==> ord(s[i], x) != Order::Less,
    ensures
        lower_bound(s, x, ord) == i,
    decreases i,
{
    if i > 0 {
        let t = s.drop_first();
        assert(ord(s[0], x) == Order::Less);
        assert forall|k: int| 0 <= k < i - 1 implies ord(#[trigger] t[k], x) == Order::Less by {
            assert(t[k] == s[k + 1]);
        }
        if i - 1 < t.len() {
            assert(t[i - 1] == s[i]);
        }
        lemma_lower_bound(t, x, ord, i - 1);
    }
}

/// Inserting at the position after the entries that come before `x` keeps
/// an ordered sequence ordered, and `x` occurs in it exactly when the entry
/// at that position is `x`.
proof fn lemma_sorted_insert<T>(s: Seq<T>, x: T, ord: spec_fn(T, T) -> Order, i: int)
    requires
        is_total_order(ord),
        is_sorted(s, ord),
        0 <= i <= s.len(),
        forall|k: int| 0 <= k < i ==> ord(#[trigger] s[k], x) == Order::Less,
        i < s.len() ==> ord(s[i], x) != Order::Less,
    ensures
        s.contains(x) <==> (i < s.len() && ord(s[i], x) == Order::Equal),
        lower_bound(s, x, ord) == i,
        !s.contains(x) ==> is_sorted(s.insert(i, x), ord),
{
    lemma_lower_bound(s, x, ord, i);
    if s.contains(x) {
        let k = choose|k: int| 0 <= k < s.len() && s[k] == x;
        assert(ord(x, x) == Order::Equal);
        if k < i {
            assert(ord(s[k], x) == Order::Less);
        } else if k > i {
            assert(ord(s[i], s[k]) == Order::Less);
        }
    }
    if i < s.len() && ord(s[i], x) == Order::Equal {
        assert(s[i] == x);
    }
    if !s.contains(x) {
        let t = s.insert(i, x);
        if i < s.len() {
            assert(ord(s[i], x) != Order::Equal);
            assert(ord(x, s[i]) == flip(ord(s[i], x)));
            assert(ord(x, s[i]) == Order::Less);
        }
        assert forall|a: int, b: int| 0 <= a < b < t.len() implies ord(#[trigger] t[a], #[trigger] t[b]) == Order::Less by {
            if b < i {
                assert(t[a] == s[a] && t[b] == s[b]);
            } else if b == i {
                assert(t[a] == s[a]);
            } else if a < i {
                assert(t[a] == s[a] && t[b] == s[b - 1]);
                assert(ord(s[a], x) == Order::Less);
                if b - 1 > i {
                    assert(ord(x, s[i]) == Order::Less);
                    assert(ord(s[i], s[b - 1]) == Order::Less);
                    assert(ord(x, s[b - 1]) == Order::Less);
                }
                assert(ord(x, s[b - 1]) == Order::Less);
            } else if a == i {
                assert(t[b] == s[b - 1]);
                if b - 1 > i {
                    assert(ord(s[i], s[b - 1]) == Order::Less);
                }
            } else {
                assert(t[a] == s[a - 1] && t[b] == s[b - 1]);
            }
        }
    }
}

/// The characters of `s`, in order.
fn chars_of(s: &str) -> (r: Vec<char>)
    ensures
        r@ == s@,
{
    let mut r: Vec<char> = Vec::new();
    for c in it: s.chars()
        invariant
            r@ == it.seq().take(it.index() as int),
    {
        r.push(c);
        assert(it.seq().take(it.index() + 1) =~= it.seq().take(it.index() as int).push(c));
    }
    r
}

/// The order of two integers.
fn usize_order(a: usize, b: usize) -> (r: Order)
    ensures
        r == int_order(a as int, b as int),
{
    if a < b {
        Order::Less
    } else if a > b {
        Order::Greater
    } else {
        Order::Equal
    }
}

/// The lexicographic order of two texts, by code point.
fn compare_texts(a: &str, b: &str) -> (r: Order)
    ensures
        r == text_order(a@, b@),
{
    let ca = chars_of(a);
    let cb = chars_of(b);
    let mut i: usize = 0;
    assert(ca@.skip(0) =~= ca@);
    assert(cb@.skip(0) =~= cb@);
    while i < ca.len() && i < cb.len()
        invariant
            ca@ == a@,
            cb@ == b@,
            0 <= i <= ca@.len(),
            i <= cb@.len(),
            text_order(a@, b@) == text_order(ca@.skip(i as int), cb@.skip(i as int)),
        decreases ca@.len() - i,
    {
        let x = ca[i];
        let y = cb[i];
        proof {
            let sa = ca@.skip(i as int);
            let sb = cb@.skip(i as int);
            assert(sa[0] == ca@[i as int]);
            assert(sb[0] == cb@[i as int]);
            assert(sa.drop_first() =~= ca@.skip(i + 1));
            assert(sb.drop_first() =~= cb@.skip(i + 1));
        }
        if x < y {
            return Order::Less;
        }
        if x > y {
            return Order::Greater;
        }
        i = i + 1;
    }
    if i < ca.len() {
        Order::Greater
    } else if i < cb.len() {
        Order::Less
    } else {
        Order::Equal
    }
}

/// The order of two optional texts: no text comes first.
fn compare_opt_texts(a: &Option<String>, b: &Option<String>) -> (r: Order)
    ensures
        r == opt_text_order(text_of(*a), text_of(*b)),
{
    match (a, b) {
        (None, None) => Order::Equal,
        (None, Some(_)) => Order::Less,
        (Some(_), None) => Order::Greater,
        (Some(x), Some(y)) => compare_texts(x.as_str(), y.as_str()),
    }
}

/// The order of two nodes: by identifier, then by text.
fn compare_nodes(a: &D2Node, b: &D2Node) -> (r: Order)
    ensures
        r == node_order(a@, b@),
{
    match usize_order(a.id.0, b.id.0) {
        Order::Equal => compare_texts(a.text.as_str(), b.text.as_str()),
        o => o,
    }
}

/// The order of two edges: by source, destination, label and style.
fn compare_edges(a: &D2Edge, b: &D2Edge) -> (r: Order)
    ensures
        r == edge_order(a@, b@),
{
    match usize_order(a.src.0, b.src.0) {
        Order::Equal => {},
        o => {
            return o;
        },
    }
    match usize_order(a.dst.0, b.dst.0) {
        Order::Equal => {},
        o => {
            return o;
        },
    }
    match compare_opt_texts(&a.props.label, &b.props.label) {
        Order::Equal => {},
        o => {
            return o;
        },
    }
    match (&a.props.style, &b.props.style) {
        (None, None) => Order::Equal,
        (None, Some(_)) => Order::Less,
        (Some(_), None) => Order::Greater,
        (Some(x), Some(y)) => compare_opt_texts(&x.stroke, &y.stroke),
    }
}

/// The abstract values of the nodes of `s`.
pub open spec fn node_views(s: Seq<D2Node>) -> Seq<D2NodeView> {
    s.map_values(|n: D2Node| n@)
}

/// The abstract values of the edges of `s`.
pub open spec fn edge_views(s: Seq<D2Edge>) -> Seq<D2EdgeView> {
    s.map_values(|e: D2Edge| e@)
}

/// Insert `x` into the ordered nodes `v`, unless they hold it already.
fn insert_node(v: &mut Vec<D2Node>, x: D2Node)
    requires
        is_sorted(node_views(old(v)@), node_ord()),
    ensures
        node_views(final(v)@) == sorted_insert(node_views(old(v)@), x@, node_ord()),
        is_sorted(node_views(final(v)@), node_ord()),
{
    let ghost s = node_views(v@);
    let ghost ord = node_ord();
    proof {
        lemma_node_ord_total();
    }
    let mut i: usize = 0;
    let mut go = true;
    while go && i < v.len()
        invariant
            s == node_views(v@),
            ord == node_ord(),
            0 <= i <= s.len(),
            forall|k: int| 0 <= k < i ==> ord(#[trigger] s[k], x@) == Order::Less,
            !go ==> i < s.len() && ord(s[i as int], x@) != Order::Less,
        decreases s.len() - i + if go {
            1int
        } else {
            0int
        },
    {
        assert(s[i as int] == v@[i as int]@);
        match compare_nodes(&v[i], &x) {
            Order::Less => {
                i = i + 1;
            },
            _ => {
                go = false;
            },
        }
    }
    let found = i < v.len() && compare_nodes(&v[i], &x) == Order::Equal;
    proof {
        if i < s.len() {
            assert(s[i as int] == v@[i as int]@);
        }
        lemma_sorted_insert(s, x@, ord, i as int);
    }
    if !found {
        v.insert(i, x);
        assert(node_views(v@) =~= s.insert(i as int, x@));
    }
}

/// Insert `x` into the ordered edges `v`, unless they hold it already.
fn insert_edge(v: &mut Vec<D2Edge>, x: D2Edge)
    requires
        is_sorted(edge_views(old(v)@), edge_ord()),
    ensures
        edge_views(final(v)@) == sorted_insert(edge_views(old(v)@), x@, edge_ord()),
        is_sorted(edge_views(final(v)@), edge_ord()),
{
    let ghost s = edge_views(v@);
    let ghost ord = edge_ord();
    proof {
        lemma_edge_ord_total();
    }
    let mut i: usize = 0;
    let mut go = true;
    while go && i < v.len()
        invariant
            s == edge_views(v@),
            ord == edge_ord(),
            0 <= i <= s.len(),
            forall|k: int| 0 <= k < i ==> ord(#[trigger] s[k], x@) == Order::Less,
            !go ==> i < s.len() && ord(s[i as int], x@) != Order::Less,
        decreases s.len() - i + if go {
            1int
        } else {
            0int
        },
    {
        assert(s[i as int] == v@[i as int]@);
        match compare_edges(&v[i], &x) {
            Order::Less => {
                i = i + 1;
            },
            _ => {
                go = false;
            },
        }
    }
    let found = i < v.len() && compare_edges(&v[i], &x) == Order::Equal;
    proof {
        if i < s.len() {
            assert(s[i as int] == v@[i as int]@);
        }
        lemma_sorted_insert(s, x@, ord, i as int);
    }
    if !found {
        v.insert(i, x);
        assert(edge_views(v@) =~= s.insert(i as int, x@));
    }
}

/// The line that declares the direction `d`.
pub open spec fn direction_line(d: D2Direction) -> Seq<char> {
    match d {
        D2Direction::Up => "direction: up\n"@,
        D2Direction::Down => "direction: down\n"@,
        D2Direction::Left => "direction: left\n"@,
        D2Direction::Right => "direction: right\n"@,
    }
}

/// The line that declares the node `n`.
pub open spec fn node_line(n: D2NodeView) -> Seq<char> {
    decimal(n.id as nat) + ": "@ + n.text + "\n"@
}

/// The lines that declare the nodes `ns`, in order.
pub open spec fn node_lines(ns: Seq<D2NodeView>) -> Seq<char>
    decreases ns.len(),
{
    if ns.len() == 0 {
        Seq::empty()
    } else {
        node_lines(ns.drop_last()) + node_line(ns.last())
    }
}

/// The block that declares the edge `e`, with its label and stroke when it
/// has them.
pub open spec fn edge_block(e: D2EdgeView) -> Seq<char> {
    decimal(e.src as nat) + "->"@ + decimal(e.dst as nat) + ": {\n"@ + match e.label {
        Some(l) => "    label: "@ + l + "\n"@,
        None => Seq::empty(),
    } + match e.style {
        Some(Some(st)) => "    style.stroke: "@ + st + "\n"@,
        _ => Seq::empty(),
    } + "}\n"@
}

/// The blocks that declare the edges `es`, in order.
pub open spec fn edge_blocks(es: Seq<D2EdgeView>) -> Seq<char>
    decreases es.len(),
{
    if es.len() == 0 {
        Seq::empty()
    } else {
        edge_blocks(es.drop_last()) + edge_block(es.last())
    }
}

/// The `d2` source of a graph: its direction, a blank line, its nodes, a
/// blank line, and its edges.
pub open spec fn d2_source(d: D2Direction, ns: Seq<D2NodeView>, es: Seq<D2EdgeView>) -> Seq<char> {
    direction_line(d) + "\n"@ + node_lines(ns) + "\n"@ + edge_blocks(es)
}

/// The blocks of two runs of edges, one after the other, are those of the
/// edges of both.
proof fn lemma_edge_blocks_concat(a: Seq<D2EdgeView>, b: Seq<D2EdgeView>)
    ensures
        edge_blocks(a + b) == edge_blocks(a) + edge_blocks(b),
    decreases b.len(),
{
    if b.len() == 0 {
        assert(a + b =~= a);
        assert(edge_blocks(a) + Seq::<char>::empty() =~= edge_blocks(a));
    } else {
        lemma_edge_blocks_concat(a, b.drop_last());
        assert((a + b).drop_last() =~= a + b.drop_last());
        assert((a + b).last() == b.last());
        assert(edge_blocks(a) + edge_blocks(b.drop_last()) + edge_block(b.last()) =~= edge_blocks(a) + (edge_blocks(
            b.drop_last(),
        ) + edge_block(b.last())));
    }
}

/// The `d2` source of a graph declares every edge `e` of it by a block of
/// its own: `src->dst: {`, then `    label: ` and the label when `e` has one,
/// then `    style.stroke: ` and the stroke whenever the style of `e` has
/// one, whether or not `e` has a label, each on a line, and `}`.
pub proof fn lemma_d2_source_declares_edges(d: D2Direction, ns: Seq<D2NodeView>, es: Seq<D2EdgeView>, k: int)
    requires
        0 <= k < es.len(),
    ensures
        ({
            let e = es[k];
            let src = d2_source(d, ns, es);
            let head = decimal(e.src as nat) + "->"@ + decimal(e.dst as nat) + ": {\n"@;
            &&& (e.label is None && e.style matches Some(Some(st))) ==> occurs_in(
                head + "    style.stroke: "@ + e.style->Some_0->Some_0 + "\n"@ + "}\n"@,
                src,
            )
            &&& (e.label matches Some(l) && e.style matches Some(Some(st))) ==> occurs_in(
                head + "    label: "@ + e.label->Some_0 + "\n"@ + "    style.stroke: "@ + e.style->Some_0->Some_0 + "\n"@ + "}\n"@,
                src,
            )
            &&& (e.label matches Some(l) && !(e.style matches Some(Some(st)))) ==> occurs_in(
                head + "    label: "@ + e.label->Some_0 + "\n"@ + "}\n"@,
                src,
            )
            &&& (e.label is None && !(e.style matches Some(Some(st)))) ==> occurs_in(head + "}\n"@, src)
        }),
{
    let e = es[k];
    lemma_block_occurs(d, ns, es, k);
    let blk = edge_block(e);
    let head = decimal(e.src as nat) + "->"@ + decimal(e.dst as nat) + ": {\n"@;
    match e.label {
        Some(l) => {
            match e.style {
                Some(Some(st)) => {
                    assert(blk =~= head + "    label: "@ + l + "\n"@ + "    style.stroke: "@ + st + "\n"@ + "}\n"@);
                },
                _ => {
                    assert(blk =~= head + "    label: "@ + l + "\n"@ + "}\n"@);
                },
            }
        },
        None => {
            match e.style {
                Some(Some(st)) => {
                    assert(blk =~= head + "    style.stroke: "@ + st + "\n"@ + "}\n"@);
                },
                _ => {
                    assert(blk =~= head + "}\n"@);
                },
            }
        },
    }
}

/// The block of every edge occurs in the `d2` source of its graph.
proof fn lemma_block_occurs(d: D2Direction, ns: Seq<D2NodeView>, es: Seq<D2EdgeView>, k: int)
    requires
        0 <= k < es.len(),
    ensures
        occurs_in(edge_block(es[k]), d2_source(d, ns, es)),
{
    let e = es[k];
    let a = es.take(k);
    let b = es.skip(k + 1);
    assert(es =~= a + seq![e] + b);
    lemma_edge_blocks_concat(a + seq![e], b);
    lemma_edge_blocks_concat(a, seq![e]);
    assert(seq![e].drop_last() =~= Seq::<D2EdgeView>::empty());
    assert(seq![e].last() == e);
    assert(edge_blocks(Seq::<D2EdgeView>::empty()) == Seq::<char>::empty());
    assert(edge_blocks(seq![e]) =~= edge_block(e));
    let pre = direction_line(d) + "\n"@ + node_lines(ns) + "\n"@ + edge_blocks(a);
    let blk = edge_block(e);
    let src = d2_source(d, ns, es);
    assert(src =~= pre + blk + edge_blocks(b));
    let i = pre.len() as int;
    assert(src.subrange(i, i + blk.len()) =~= blk);
}

/// The lines of two runs of nodes, one after the other, are those of the
/// nodes of both.
proof fn lemma_node_lines_concat(a: Seq<D2NodeView>, b: Seq<D2NodeView>)
    ensures
        node_lines(a + b) == node_lines(a) + node_lines(b),
    decreases b.len(),
{
    if b.len() == 0 {
        assert(a + b =~= a);
        assert(node_lines(a) + Seq::<char>::empty() =~= node_lines(a));
    } else {
        lemma_node_lines_concat(a, b.drop_last());
        assert((a + b).drop_last() =~= a + b.drop_last());
        assert((a + b).last() == b.last());
        assert(node_lines(a) + node_lines(b.drop_last()) + node_line(b.last()) =~= node_lines(a) + (node_lines(
            b.drop_last(),
        ) + node_line(b.last())));
    }
}

/// The `d2` source of a graph starts by declaring its direction, on a line
/// of its own followed by a blank line, and declares every node on a line
/// of its own: its id, a colon, a space and its text.
pub proof fn lemma_d2_source_declares_nodes(d: D2Direction, ns: Seq<D2NodeView>, es: Seq<D2EdgeView>)
    ensures
        d2_source(d, ns, es).take(
            ("direction: "@ + match d {
                D2Direction::Up => "up"@,
                D2Direction::Down => "down"@,
                D2Direction::Left => "left"@,
                D2Direction::Right => "right"@,
            } + "\n"@ + "\n"@).len() as int,
        ) == "direction: "@ + match d {
            D2Direction::Up => "up"@,
            D2Direction::Down => "down"@,
            D2Direction::Left => "left"@,
            D2Direction::Right => "right"@,
        } + "\n"@ + "\n"@,
        forall|k: int|
            0 <= k < ns.len() ==> occurs_in(
                decimal(#[trigger] ns[k].id as nat) + ": "@ + ns[k].text + "\n"@,
                d2_source(d, ns, es),
            ),
{
    reveal_strlit("direction: up\n");
    reveal_strlit("direction: down\n");
    reveal_strlit("direction: left\n");
    reveal_strlit("direction: right\n");
    reveal_strlit("direction: ");
    reveal_strlit("up");
    reveal_strlit("down");
    reveal_strlit("left");
    reveal_strlit("right");
    reveal_strlit("\n");
    let name: Seq<char> = match d {
        D2Direction::Up => "up"@,
        D2Direction::Down => "down"@,
        D2Direction::Left => "left"@,
        D2Direction::Right => "right"@,
    };
    let head = "direction: "@ + name + "\n"@ + "\n"@;
    assert(direction_line(d) + "\n"@ =~= head);
    let src = d2_source(d, ns, es);
    assert(src =~= head + (node_lines(ns) + "\n"@ + edge_blocks(es)));
    assert(src.take(head.len() as int) =~= head);
    assert forall|k: int| 0 <= k < ns.len() implies occurs_in(
        decimal(#[trigger] ns[k].id as nat) + ": "@ + ns[k].text + "\n"@,
        src,
    ) by {
        let n = ns[k];
        let a = ns.take(k);
        let b = ns.skip(k + 1);
        assert(ns =~= a + seq![n] + b);
        lemma_node_lines_concat(a + seq![n], b);
        lemma_node_lines_concat(a, seq![n]);
        assert(seq![n].drop_last() =~= Seq::<D2NodeView>::empty());
        assert(seq![n].last() == n);
        assert(node_lines(Seq::<D2NodeView>::empty()) == Seq::<char>::empty());
        assert(node_lines(seq![n]) =~= node_line(n));
        let pre = direction_line(d) + "\n"@ + node_lines(a);
        let t = node_line(n);
        assert(src =~= pre + t + (node_lines(b) + "\n"@ + edge_blocks(es)));
        let i = pre.len() as int;
        assert(src.subrange(i, i + t.len()) =~= t);
    }
}

/// The `d2` source declares the edges in their order in the graph: the
/// block of an earlier edge, found at `r.0`, ends before the block of a
/// later one, found at `r.1`, begins.
pub proof fn lemma_d2_source_edge_order(d: D2Direction, ns: Seq<D2NodeView>, es: Seq<D2EdgeView>, j: int, k: int) -> (r: (
    int,
    int,
))
    requires
        0 <= j < k < es.len(),
    ensures
        0 <= r.0,
        r.0 + edge_block(es[j]).len() <= r.1,
        r.1 + edge_block(es[k]).len() <= d2_source(d, ns, es).len(),
        d2_source(d, ns, es).subrange(r.0, r.0 + edge_block(es[j]).len()) == edge_block(es[j]),
        d2_source(d, ns, es).subrange(r.1, r.1 + edge_block(es[k]).len()) == edge_block(es[k]),
{
    lemma_edge_blocks_split(es, j, k);
    let head = direction_line(d) + "\n"@ + node_lines(ns) + "\n"@;
    let bj = edge_block(es[j]);
    let bk = edge_block(es[k]);
    let p1 = head + edge_blocks(es.take(j));
    let m = edge_blocks(es.subrange(j + 1, k));
    let t = edge_blocks(es.skip(k + 1));
    let src = d2_source(d, ns, es);
    assert(src == head + edge_blocks(es));
    assert(src =~= p1 + bj + m + bk + t);
    let i1 = p1.len() as int;
    let i2 = i1 + bj.len() + m.len();
    assert(src.subrange(i1, i1 + bj.len()) =~= bj);
    assert(src.subrange(i2, i2 + bk.len()) =~= bk);
    (i1, i2)
}

/// The blocks of the edges `es`, cut at two of them.
proof fn lemma_edge_blocks_split(es: Seq<D2EdgeView>, j: int, k: int)
    requires
        0 <= j < k < es.len(),
    ensures
        edge_blocks(es) == edge_blocks(es.take(j)) + edge_block(es[j]) + edge_blocks(es.subrange(j + 1, k))
            + edge_block(es[k]) + edge_blocks(es.skip(k + 1)),
{
    let a = es.take(j);
    let mid = es.subrange(j + 1, k);
    let b = es.skip(k + 1);
    let ej = seq![es[j]];
    let ek = seq![es[k]];
    assert(es =~= a + ej + mid + ek + b);
    lemma_edge_blocks_concat(a + ej + mid + ek, b);
    lemma_edge_blocks_concat(a + ej + mid, ek);
    lemma_edge_blocks_concat(a + ej, mid);
    lemma_edge_blocks_concat(a, ej);
    lemma_edge_blocks_one(es[j]);
    lemma_edge_blocks_one(es[k]);
}

/// The blocks of one edge are its block.
proof fn lemma_edge_blocks_one(e: D2EdgeView)
    ensures
        edge_blocks(seq![e]) == edge_block(e),
{
    assert(seq![e].drop_last() =~= Seq::<D2EdgeView>::empty());
    assert(seq![e].last() == e);
    assert(edge_blocks(Seq::<D2EdgeView>::empty()) == Seq::<char>::empty());
    assert(edge_blocks(seq![e]) =~= edge_block(e));
}

/// Append the block that declares `edge` to `buf`.
fn push_edge_block(buf: &mut String, edge: &D2Edge)
    ensures
        final(buf)@ == old(buf)@ + edge_block(edge@),
{
    let ghost b0 = buf@;
    push_decimal(buf, edge.src.0);
    buf.append("->");
    push_decimal(buf, edge.dst.0);
    buf.append(": {\n");
    let ghost b1 = buf@;
    if let Some(label) = &edge.props.label {
        buf.append("    label: ");
        buf.append(label.as_str());
        buf.append("\n");
    }
    let ghost b2 = buf@;
    if let Some(style) = &edge.props.style {
        if let Some(stroke) = &style.stroke {
            buf.append("    style.stroke: ");
            buf.append(stroke.as_str());
            buf.append("\n");
        }
    }
    let ghost b3 = buf@;
    buf.append("}\n");
    proof {
        let e = edge@;
        let lp: Seq<char> = match e.label {
            Some(l) => "    label: "@ + l + "\n"@,
            None => Seq::empty(),
        };
        let sp: Seq<char> = match e.style {
            Some(Some(st)) => "    style.stroke: "@ + st + "\n"@,
            _ => Seq::empty(),
        };
        assert(b2 =~= b1 + lp);
        assert(b3 =~= b2 + sp);
        assert(buf@ =~= b0 + edge_block(e));
    }
}

/// The abstract value of a `D2Graph`: its direction, nodes and edges.
pub ghost struct D2GraphView {
    pub direction: D2Direction,
    pub nodes: Seq<D2NodeView>,
    pub edges: Seq<D2EdgeView>,
}

/// A graph in the `d2` diagram language: a direction, and nodes and edges
/// each kept in order, without repetition, as in an ordered set.
#[derive(Clone, PartialEq, Eq, PartialOrd, Ord, Hash)]
pub struct D2Graph {
    pub direction: D2Direction,
    nodes: Vec<D2Node>,
    edges: Vec<D2Edge>,
}

impl Default for D2Graph {
    fn default() -> (r: Self)
        ensures
            r.wf(),
            r@.direction == D2Direction::Down,
            r@.nodes.len() == 0,
            r@.edges.len() == 0,
    {
        let r = D2Graph { direction: D2Direction::Down, nodes: Vec::new(), edges: Vec::new() };
        assert(r@.nodes =~= Seq::<D2NodeView>::empty());
        assert(r@.edges =~= Seq::<D2EdgeView>::empty());
        r
    }
}

impl D2Graph {
    /// The abstract value of `self`.
    pub closed spec fn view(&self) -> D2GraphView {
        D2GraphView { direction: self.direction, nodes: node_views(self.nodes@), edges: edge_views(self.edges@) }
    }

    /// The nodes and the edges of `self` are each in order.
    pub open spec fn wf(&self) -> bool {
        &&& is_sorted(self@.nodes, node_ord())
        &&& is_sorted(self@.edges, edge_ord())
    }

    /// The nodes of `self`, in order.
    pub fn nodes(&self) -> (r: &Vec<D2Node>)
        ensures
            node_views(r@) == self@.nodes,
    {
        &self.nodes
    }

    /// The edges of `self`, in order.
    pub fn edges(&self) -> (r: &Vec<D2Edge>)
        ensures
            edge_views(r@) == self@.edges,
    {
        &self.edges
    }

    /// Lay the graph out in direction `d`; the nodes and the edges stay as
    /// they are.
    pub fn set_direction(&mut self, d: D2Direction)
        requires
            old(self).wf(),
        ensures
            final(self).wf(),
            final(self)@.direction == d,
            final(self)@.nodes == old(self)@.nodes,
            final(self)@.edges == old(self)@.edges,
    {
        self.direction = d;
    }

    /// Add `node` to the nodes, unless an equal node is there already.
    pub fn add_node(&mut self, node: D2Node)
        requires
            old(self).wf(),
        ensures
            final(self).wf(),
            final(self)@.nodes == sorted_insert(old(self)@.nodes, node@, node_ord()),
            final(self)@.edges == old(self)@.edges,
            final(self)@.direction == old(self)@.direction,
    {
        insert_node(&mut self.nodes, node);
    }

    /// Add `edge` to the edges, unless an equal edge is there already.
    pub fn add_edge(&mut self, edge: D2Edge)
        requires
            old(self).wf(),
        ensures
            final(self).wf(),
            final(self)@.edges == sorted_insert(old(self)@.edges, edge@, edge_ord()),
            final(self)@.nodes == old(self)@.nodes,
            final(self)@.direction == old(self)@.direction,
    {
        insert_edge(&mut self.edges, edge);
    }

    /// Render `self` as `d2` diagram source code.
    pub fn to_d2_graph(&self) -> (r: String)
        ensures
            r@ == d2_source(self@.direction, self@.nodes, self@.edges),
    {
        let mut buf = String::new();
        match self.direction {
            D2Direction::Up => buf.append("direction: up\n"),
            D2Direction::Down => buf.append("direction: down\n"),
            D2Direction::Left => buf.append("direction: left\n"),
            D2Direction::Right => buf.append("direction: right\n"),
        }
        buf.append("\n");
        let ghost head = buf@;
        let ghost ns = self@.nodes;
        let mut i: usize = 0;
        assert(ns.take(0) =~= Seq::<D2NodeView>::empty());
        assert(head + node_lines(ns.take(0)) =~= head);
        while i < self.nodes.len()
            invariant
                ns == self@.nodes,
                ns == node_views(self.nodes@),
                0 <= i <= ns.len(),
                buf@ == head + node_lines(ns.take(i as int)),
            decreases ns.len() - i,
        {
            let node = &self.nodes[i];
            let ghost b0 = buf@;
            push_decimal(&mut buf, node.id.0);
            buf.append(": ");
            buf.append(node.text.as_str());
            buf.append("\n");
            proof {
                assert(ns[i as int] == node@);
                assert(ns.take(i + 1).drop_last() =~= ns.take(i as int));
                assert(ns.take(i + 1).last() == ns[i as int]);
                assert(buf@ =~= b0 + node_line(ns[i as int]));
            }
            i = i + 1;
        }
        assert(ns.take(i as int) =~= ns);
        buf.append("\n");
        let ghost mid = buf@;
        let ghost es = self@.edges;
        let mut j: usize = 0;
        assert(es.take(0) =~= Seq::<D2EdgeView>::empty());
        assert(mid + edge_blocks(es.take(0)) =~= mid);
        while j < self.edges.len()
            invariant
                es == self@.edges,
                es == edge_views(self.edges@),
                0 <= j <= es.len(),
                buf@ == mid + edge_blocks(es.take(j as int)),
            decreases es.len() - j,
        {
            let edge = &self.edges[j];
            let ghost b0 = buf@;
            push_edge_block(&mut buf, edge);
            proof {
                assert(es[j as int] == edge@);
                assert(es.take(j + 1).drop_last() =~= es.take(j as int));
                assert(es.take(j + 1).last() == es[j as int]);
            }
            j = j + 1;
        }
        assert(es.take(j as int) =~= es);
        assert(buf@ =~= d2_source(self@.direction, self@.nodes, self@.edges));
        buf
    }
}

} // verus!
