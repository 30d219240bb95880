//! Graph descriptions in the Graphviz `dot` language: graphs, subgraphs,
//! statements, nodes, edges and their attributes, each with the `dot`
//! source text that displays it.

use vstd::prelude::*;
use vstd::string::StringExecFns;
use vstd::std_specs::convert::IntoSpec;
use crate::arena::{lemma_bfs_in_range, Arena, ArenaView};
use crate::node::NodeIdx;
use crate::text::{decimal, occurs_in, push_decimal};

verus! {

/// How overlapping nodes are dealt with.
#[derive(Clone, Copy, Debug, PartialEq, Eq, Structural, PartialOrd, Ord, Hash)]
pub enum DotOverlap {
    Scale,
}

/// The direction in which the ranks of a graph are laid out.
#[derive(Clone, Copy, Debug, PartialEq, Eq, Structural, PartialOrd, Ord, Hash)]
pub enum DotRankDir {
    TopToBottom,
    BottomToTop,
    LeftToRight,
    RightToLeft,
}

impl Default for DotRankDir {
    fn default() -> (r: Self)
        ensures
            r == DotRankDir::TopToBottom,
    {
        DotRankDir::TopToBottom
    }
}

/// The displayed form of a rank direction.
pub open spec fn rank_dir_text(d: DotRankDir) -> Seq<char> {
    match d {
        DotRankDir::TopToBottom => "TB"@,
        DotRankDir::BottomToTop => "BT"@,
        DotRankDir::LeftToRight => "LR"@,
        DotRankDir::RightToLeft => "RL"@,
    }
}

impl DotRankDir {
    /// The displayed form of `self`.
    pub fn text(&self) -> (r: &'static str)
        ensures
            r@ == rank_dir_text(*self),
    {
        match self {
            DotRankDir::TopToBottom => "TB",
            DotRankDir::BottomToTop => "BT",
            DotRankDir::LeftToRight => "LR",
            DotRankDir::RightToLeft => "RL",
        }
    }
}

/// The constraint that a `rank` statement puts on its nodes.
#[derive(Clone, Copy, Debug, PartialEq, Eq, Structural, PartialOrd, Ord, Hash)]
pub enum DotRankStmt {
    Min,
    Max,
    Same,
}

/// The displayed form of a rank constraint.
pub open spec fn rank_stmt_text(r: DotRankStmt) -> Seq<char> {
    match r {
        DotRankStmt::Min => "min"@,
        DotRankStmt::Max => "max"@,
        DotRankStmt::Same => "same"@,
    }
}

impl DotRankStmt {
    /// The displayed form of `self`.
    pub fn text(&self) -> (r: &'static str)
        ensures
            r@ == rank_stmt_text(*self),
    {
        match self {
            DotRankStmt::Min => "min",
            DotRankStmt::Max => "max",
            DotRankStmt::Same => "same",
        }
    }
}

/// The style in which a node is drawn.
#[derive(Clone, Copy, Debug, PartialEq, Eq, Structural, PartialOrd, Ord, Hash)]
pub enum DotStyle {
    Filled,
    Solid,
    Dashed,
    Dotted,
    Bold,
    Invis,
}

impl Default for DotStyle {
    fn default() -> (r: Self)
        ensures
            r == DotStyle::Solid,
    {
        DotStyle::Solid
    }
}

/// The displayed form of a node style.
pub open spec fn style_text(s: DotStyle) -> Seq<char> {
    match s {
        DotStyle::Filled => "filled"@,
        DotStyle::Solid => "solid"@,
        DotStyle::Dashed => "dashed"@,
        DotStyle::Dotted => "dotted"@,
        DotStyle::Bold => "bold"@,
        DotStyle::Invis => "invis"@,
    }
}

impl DotStyle {
    /// The displayed form of `self`.
    pub fn text(&self) -> (r: &'static str)
        ensures
            r@ == style_text(*self),
    {
        match self {
            DotStyle::Filled => "filled",
            DotStyle::Solid => "solid",
            DotStyle::Dashed => "dashed",
            DotStyle::Dotted => "dotted",
            DotStyle::Bold => "bold",
            DotStyle::Invis => "invis",
        }
    }
}

/// The attributes of a node or an edge; those that are `None` are left out.
#[derive(Clone, Debug, PartialEq, Eq, PartialOrd, Ord, Hash)]
pub struct DotAttrs {
    /// A label that will be displayed within a pair of double quotes.
    pub label: Option<String>,
    /// A shape e.g. "square", "circle", "triangle" etc.
    pub shape: Option<String>,
    /// A color name or hex format e.g. "darkgreen", "#3c3c3c", etc.
    pub color: Option<String>,
    /// A color name or hex format e.g. "darkgreen", "#3c3c3c", etc.
    pub fontcolor: Option<String>,
    /// [edge-only] If set, draw a trace line from an edge label to the
    /// edge itself.
    pub decorate: Option<()>,
    /// The size of the font used for label text.
    pub fontsize: Option<usize>,
    /// [node-only] Minimum height
    pub height: Option<usize>,
    /// [node-only] Minimum width
    pub width: Option<usize>,
    /// [node-only] Node style
    pub style: Option<DotStyle>,
    /// [node-only] Sets the fill color when `style=filled`.  If not
    /// specified, the fillcolor when `style=filled` defaults to be
    /// the same as the outline color.
    pub fillcolor: Option<String>,
}

/// `a` sets a label and, when `color` is given, that color, and nothing
/// else.
pub open spec fn labelled(a: DotAttrs, label: String, color: Option<Seq<char>>) -> bool {
    &&& a.label == Some(label)
    &&& a.shape is None
    &&& match color {
        Some(c) => a.color matches Some(t) && t@ == c,
        None => a.color is None,
    }
    &&& a.fontcolor is None
    &&& a.decorate is None
    &&& a.fontsize is None
    &&& a.height is None
    &&& a.width is None
    &&& a.style is None
    &&& a.fillcolor is None
}

impl Default for DotAttrs {
    fn default() -> (r: Self)
        ensures
            r.label is None && r.shape is None && r.color is None && r.fontcolor is None,
            r.decorate is None && r.fontsize is None && r.height is None && r.width is None,
            r.style is None && r.fillcolor is None,
    {
        DotAttrs {
            label: None,
            shape: None,
            color: None,
            fontcolor: None,
            decorate: None,
            fontsize: None,
            height: None,
            width: None,
            style: None,
            fillcolor: None,
        }
    }
}

impl DotAttrs {
    /// Attributes that set `label` and, when given, `color`, and nothing
    /// else.
    pub fn labelled(label: String, color: Option<&str>) -> (r: Self)
        ensures
            labelled(
                r,
                label,
                match color {
                    Some(c) => Some(c@),
                    None => None,
                },
            ),
    {
        let color = match color {
            Some(c) => Some(String::from_str(c)),
            None => None,
        };
        DotAttrs {
            label: Some(label),
            shape: None,
            color,
            fontcolor: None,
            decorate: None,
            fontsize: None,
            height: None,
            width: None,
            style: None,
            fillcolor: None,
        }
    }
}

/// No item when `o` is `None`, else its one item.
pub open spec fn item(o: Option<Seq<char>>) -> Seq<Seq<char>> {
    match o {
        Some(x) => seq![x],
        None => Seq::empty(),
    }
}

/// `items`, each after the one before it with `sep` in between.
pub open spec fn joined(items: Seq<Seq<char>>, sep: Seq<char>) -> Seq<char>
    decreases items.len(),
{
    if items.len() == 0 {
        Seq::empty()
    } else if items.len() == 1 {
        items[0]
    } else {
        joined(items.drop_last(), sep) + sep + items.last()
    }
}

/// The text of a string attribute, if it is set.
pub open spec fn string_attr(name: Seq<char>, value: Option<String>) -> Option<Seq<char>> {
    match value {
        Some(t) => Some(name + t@),
        None => None,
    }
}

/// The text of a quoted string attribute, if it is set.
pub open spec fn quoted_attr(name: Seq<char>, value: Option<String>) -> Option<Seq<char>> {
    match value {
        Some(t) => Some(name + t@ + "\""@),
        None => None,
    }
}

/// The text of a number attribute, if it is set.
pub open spec fn number_attr(name: Seq<char>, value: Option<usize>) -> Option<Seq<char>> {
    match value {
        Some(n) => Some(name + decimal(n as nat)),
        None => None,
    }
}

/// The texts of the attributes of `a` that are set, in the order in which
/// they are displayed.
pub open spec fn attr_items(a: DotAttrs) -> Seq<Seq<char>> {
    item(quoted_attr("label=\""@, a.label)) + item(string_attr("shape="@, a.shape)) + item(
        quoted_attr("color=\""@, a.color),
    ) + item(string_attr("fontcolor="@, a.fontcolor)) + item(
        match a.decorate {
            Some(_) => Some("decorate=true"@),
            None => None,
        },
    ) + item(number_attr("fontsize="@, a.fontsize)) + item(number_attr("height="@, a.height)) + item(
        number_attr("width="@, a.width),
    ) + item(
        match a.style {
            Some(s) => Some("style="@ + style_text(s)),
            None => None,
        },
    ) + item(string_attr("fillcolor="@, a.fillcolor))
}

/// The displayed form of attributes: those that are set, separated by
/// commas.
pub open spec fn attrs_text(a: DotAttrs) -> Seq<char> {
    joined(attr_items(a), ", "@)
}

/// Joining one more item adds a separator, unless it is the first.
proof fn lemma_joined_push(items: Seq<Seq<char>>, x: Seq<char>, sep: Seq<char>)
    ensures
        joined(items.push(x), sep) == if items.len() == 0 {
            x
        } else {
            joined(items, sep) + sep + x
        },
{
    assert(items.push(x).drop_last() =~= items);
    if items.len() == 0 {
        assert(items.push(x)[0] == x);
    }
}

/// Append the separator that comes before an attribute to `buf`, unless
/// `n`, the number of attributes before it, is 0.
fn push_separator(buf: &mut String, n: usize)
    ensures
        final(buf)@ == if n == 0 {
            old(buf)@
        } else {
            old(buf)@ + ", "@
        },
{
    if n > 0 {
        buf.append(", ");
    }
}

/// Append the text of `value`, if it is set, as the next of `n` attributes
/// that `buf` holds as `items`.
fn push_string_attr(buf: &mut String, n: &mut usize, name: &str, value: &Option<String>, quoted: bool, Ghost(items): Ghost<
    Seq<Seq<char>>,
>) -> (r: Ghost<Seq<Seq<char>>>)
    requires
        old(buf)@ == joined(items, ", "@),
        *old(n) == items.len(),
        *old(n) < 16,
    ensures
        r@ == items + item(
            if quoted {
                quoted_attr(name@, *value)
            } else {
                string_attr(name@, *value)
            },
        ),
        final(buf)@ == joined(r@, ", "@),
        *final(n) == r@.len(),
        *final(n) <= *old(n) + 1,
{
    match value {
        Some(t) => {
            let ghost x = if quoted {
                name@ + t@ + "\""@
            } else {
                name@ + t@
            };
            push_separator(buf, *n);
            buf.append(name);
            buf.append(t.as_str());
            if quoted {
                buf.append("\"");
            }
            proof {
                lemma_joined_push(items, x, ", "@);
                assert(items + seq![x] =~= items.push(x));
            }
            *n = *n + 1;
            Ghost(items.push(x))
        },
        None => {
            assert(items + Seq::<Seq<char>>::empty() =~= items);
            Ghost(items)
        },
    }
}

/// Append the text of `value`, if it is set, as the next of `n` attributes
/// that `buf` holds as `items`.
fn push_number_attr(buf: &mut String, n: &mut usize, name: &str, value: Option<usize>, Ghost(items): Ghost<
    Seq<Seq<char>>,
>) -> (r: Ghost<Seq<Seq<char>>>)
    requires
        old(buf)@ == joined(items, ", "@),
        *old(n) == items.len(),
        *old(n) < 16,
    ensures
        r@ == items + item(number_attr(name@, value)),
        final(buf)@ == joined(r@, ", "@),
        *final(n) == r@.len(),
        *final(n) <= *old(n) + 1,
{
    match value {
        Some(v) => {
            let ghost x = name@ + decimal(v as nat);
            push_separator(buf, *n);
            buf.append(name);
            push_decimal(buf, v);
            proof {
                lemma_joined_push(items, x, ", "@);
                assert(items + seq![x] =~= items.push(x));
            }
            *n = *n + 1;
            Ghost(items.push(x))
        },
        None => {
            assert(items + Seq::<Seq<char>>::empty() =~= items);
            Ghost(items)
        },
    }
}

/// Append `text`, when `set`, as the next of `n` attributes that `buf`
/// holds as `items`.
fn push_fixed_attr(buf: &mut String, n: &mut usize, set: bool, text: &str, Ghost(items): Ghost<Seq<Seq<char>>>) -> (r: Ghost<
    Seq<Seq<char>>,
>)
    requires
        old(buf)@ == joined(items, ", "@),
        *old(n) == items.len(),
        *old(n) < 16,
    ensures
        r@ == items + item(
            if set {
                Some(text@)
            } else {
                None
            },
        ),
        final(buf)@ == joined(r@, ", "@),
        *final(n) == r@.len(),
        *final(n) <= *old(n) + 1,
{
    if set {
        push_separator(buf, *n);
        buf.append(text);
        proof {
            lemma_joined_push(items, text@, ", "@);
            assert(items + seq![text@] =~= items.push(text@));
        }
        *n = *n + 1;
        Ghost(items.push(text@))
    } else {
        assert(items + Seq::<Seq<char>>::empty() =~= items);
        Ghost(items)
    }
}

impl DotAttrs {
    /// The displayed form of `self`: the attributes that are set, in a
    /// fixed order, separated by commas.
    pub fn to_string(&self) -> (r: String)
        ensures
            r@ == attrs_text(*self),
    {
        let mut buf = String::new();
        self.push_text(&mut buf);
        assert(buf@ =~= attrs_text(*self));
        buf
    }

    /// Append the displayed form of `self` to `buf`.
    fn push_text(&self, buf: &mut String)
        ensures
            final(buf)@ == old(buf)@ + attrs_text(*self),
    {
        let ghost b0 = buf@;
        let mut own = String::new();
        let mut n: usize = 0;
        let ghost e = Seq::<Seq<char>>::empty();
        let g = push_string_attr(&mut own, &mut n, "label=\"", &self.label, true, Ghost(e));
        let g = push_string_attr(&mut own, &mut n, "shape=", &self.shape, false, g);
        let g = push_string_attr(&mut own, &mut n, "color=\"", &self.color, true, g);
        let g = push_string_attr(&mut own, &mut n, "fontcolor=", &self.fontcolor, false, g);
        let g = push_fixed_attr(&mut own, &mut n, self.decorate.is_some(), "decorate=true", g);
        let g = push_number_attr(&mut own, &mut n, "fontsize=", self.fontsize, g);
        let g = push_number_attr(&mut own, &mut n, "height=", self.height, g);
        let g = push_number_attr(&mut own, &mut n, "width=", self.width, g);
        let style_text_exec: &str = match &self.style {
            Some(s) => s.text(),
            None => "",
        };
        let ghost before_style = g@;
        let ghost own_before = own@;
        let g = match &self.style {
            Some(s) => {
                let ghost x = "style="@ + style_text(*s);
                push_separator(&mut own, n);
                own.append("style=");
                own.append(style_text_exec);
                proof {
                    lemma_joined_push(before_style, x, ", "@);
                    assert(before_style + seq![x] =~= before_style.push(x));
                    assert(style_text_exec@ == style_text(*s));
                    if before_style.len() == 0 {
                        assert(own@ =~= x);
                    } else {
                        assert(own@ =~= joined(before_style, ", "@) + ", "@ + x);
                    }
                }
                n = n + 1;
                Ghost(before_style.push(x))
            },
            None => {
                assert(before_style + Seq::<Seq<char>>::empty() =~= before_style);
                g
            },
        };
        let g = push_string_attr(&mut own, &mut n, "fillcolor=", &self.fillcolor, false, g);
        proof {
            assert(e + item(quoted_attr("label=\""@, self.label)) =~= item(quoted_attr("label=\""@, self.label)));
            assert(g@ =~= attr_items(*self));
        }
        buf.append(own.as_str());
    }
}

/// A node statement: the node's index and its attributes.
#[derive(Clone, Debug, PartialEq, Eq, PartialOrd, Ord, Hash)]
pub struct DotNode {
    pub idx: NodeIdx,
    pub attrs: DotAttrs,
}

/// An edge statement: its ends and its attributes.
#[derive(Clone, Debug, PartialEq, Eq, PartialOrd, Ord, Hash)]
pub struct DotEdge {
    pub src: NodeIdx,
    pub dst: NodeIdx,
    pub attrs: DotAttrs,
}

/// The displayed form of a node statement.
pub open spec fn node_text(n: DotNode) -> Seq<char> {
    decimal(n.idx.0 as nat) + " ["@ + attrs_text(n.attrs) + "]"@
}

/// The displayed form of an edge statement.
pub open spec fn edge_text(e: DotEdge) -> Seq<char> {
    decimal(e.src.0 as nat) + " -> "@ + decimal(e.dst.0 as nat) + " ["@ + attrs_text(e.attrs) + "]"@
}

impl DotNode {
    /// The displayed form of `self`: `{idx} [{attrs}]`.
    pub fn to_string(&self) -> (r: String)
        ensures
            r@ == node_text(*self),
    {
        let mut buf = String::new();
        self.push_text(&mut buf);
        assert(buf@ =~= node_text(*self));
        buf
    }

    /// Append the displayed form of `self` to `buf`.
    fn push_text(&self, buf: &mut String)
        ensures
            final(buf)@ == old(buf)@ + node_text(*self),
    {
        let ghost b0 = buf@;
        push_decimal(buf, self.idx.0);
        buf.append(" [");
        self.attrs.push_text(buf);
        buf.append("]");
        assert(buf@ =~= b0 + node_text(*self));
    }
}

impl DotEdge {
    /// The displayed form of `self`: `{src} -> {dst} [{attrs}]`.
    pub fn to_string(&self) -> (r: String)
        ensures
            r@ == edge_text(*self),
    {
        let mut buf = String::new();
        self.push_text(&mut buf);
        assert(buf@ =~= edge_text(*self));
        buf
    }

    /// Append the displayed form of `self` to `buf`.
    fn push_text(&self, buf: &mut String)
        ensures
            final(buf)@ == old(buf)@ + edge_text(*self),
    {
        let ghost b0 = buf@;
        push_decimal(buf, self.src.0);
        buf.append(" -> ");
        push_decimal(buf, self.dst.0);
        buf.append(" [");
        self.attrs.push_text(buf);
        buf.append("]");
        assert(buf@ =~= b0 + edge_text(*self));
    }
}

/// A statement of a graph or a subgraph.
#[derive(Debug, PartialEq, Eq, PartialOrd, Ord, Hash)]
pub enum DotStmt {
    Node(DotNode),
    Edge(DotEdge),
    Subgraph(DotSubGraph),
    Overlap(DotOverlap),
    RankSeparation(usize),
    Rank { rank: DotRankStmt, nodes: Vec<NodeIdx> },
}

/// A subgraph: a cluster or not, a background color for a cluster, and
/// statements.
#[derive(Debug, Default, PartialEq, Eq, PartialOrd, Ord, Hash)]
pub struct DotSubGraph {
    pub is_cluster: bool,
    /// If `self.is_cluster` is `true`, then a background color can be provided
    pub bgcolor: Option<String>,
    pub stmts: Vec<DotStmt>,
}

/// The nodes of a `rank` statement, each after a space and before a
/// semicolon.
pub open spec fn rank_nodes_text(ns: Seq<NodeIdx>) -> Seq<char>
    decreases ns.len(),
{
    if ns.len() == 0 {
        Seq::empty()
    } else {
        rank_nodes_text(ns.drop_last()) + " "@ + decimal(ns.last().0 as nat) + ";"@
    }
}

/// The displayed form of a statement.
pub open spec fn stmt_text(s: DotStmt) -> Seq<char>
    decreases s,
{
    match s {
        DotStmt::Node(n) => node_text(n) + ";"@,
        DotStmt::Edge(e) => edge_text(e) + ";"@,
        DotStmt::Subgraph(g) => subgraph_text(g),
        DotStmt::Overlap(_) => "overlap=scale;"@,
        DotStmt::RankSeparation(sep) => "ranksep="@ + decimal(sep as nat) + ";"@,
        DotStmt::Rank { rank, nodes } => "rank="@ + rank_stmt_text(rank) + ";"@ + rank_nodes_text(nodes@),
    }
}

/// The displayed form of a subgraph, on one line.
pub open spec fn subgraph_text(g: DotSubGraph) -> Seq<char>
    decreases g,
{
    "subgraph "@ + (if g.is_cluster {
        "cluster"@
    } else {
        Seq::empty()
    }) + " {"@ + (match g.bgcolor {
        Some(b) => "  bgcolor=\""@ + b@ + "\";"@,
        None => Seq::empty(),
    }) + stmts_text(g.stmts@) + "}"@
}

/// The statements of a subgraph, each after two spaces and before a
/// semicolon.
pub open spec fn stmts_text(ss: Seq<DotStmt>) -> Seq<char>
    decreases ss,
{
    if ss.len() == 0 {
        Seq::empty()
    } else {
        stmts_text(ss.drop_last()) + "  "@ + stmt_text(ss.last()) + ";"@
    }
}

/// Append the nodes of a `rank` statement to `buf`.
fn push_rank_nodes(buf: &mut String, nodes: &Vec<NodeIdx>)
    ensures
        final(buf)@ == old(buf)@ + rank_nodes_text(nodes@),
{
    let ghost b0 = buf@;
    let mut i: usize = 0;
    while i < nodes.len()
        invariant
            0 <= i <= nodes@.len(),
            buf@ == b0 + rank_nodes_text(nodes@.take(i as int)),
        decreases nodes@.len() - i,
    {
        buf.append(" ");
        push_decimal(buf, nodes[i].0);
        buf.append(";");
        proof {
            let t = nodes@.take(i + 1);
            assert(t.drop_last() =~= nodes@.take(i as int));
            assert(t.last() == nodes@[i as int]);
            assert(buf@ =~= b0 + rank_nodes_text(t));
        }
        i = i + 1;
    }
    assert(nodes@.take(i as int) =~= nodes@);
}

/// Append the displayed form of `s` to `buf`.
fn push_stmt(s: &DotStmt, buf: &mut String)
    ensures
        final(buf)@ == old(buf)@ + stmt_text(*s),
    decreases s,
{
    let ghost b0 = buf@;
    match s {
        DotStmt::Node(n) => {
            n.push_text(buf);
            buf.append(";");
        },
        DotStmt::Edge(e) => {
            e.push_text(buf);
            buf.append(";");
        },
        DotStmt::Subgraph(g) => {
            push_subgraph(g, buf);
        },
        DotStmt::Overlap(_) => {
            buf.append("overlap=scale;");
        },
        DotStmt::RankSeparation(sep) => {
            buf.append("ranksep=");
            push_decimal(buf, *sep);
            buf.append(";");
        },
        DotStmt::Rank { rank, nodes } => {
            buf.append("rank=");
            buf.append(rank.text());
            buf.append(";");
            push_rank_nodes(buf, nodes);
        },
    }
    assert(buf@ =~= b0 + stmt_text(*s));
}

/// Append the displayed form of `g` to `buf`.
fn push_subgraph(g: &DotSubGraph, buf: &mut String)
    ensures
        final(buf)@ == old(buf)@ + subgraph_text(*g),
    decreases g,
{
    let ghost b0 = buf@;
    buf.append("subgraph ");
    if g.is_cluster {
        buf.append("cluster");
    }
    buf.append(" {");
    match &g.bgcolor {
        Some(b) => {
            buf.append("  bgcolor=\"");
            buf.append(b.as_str());
            buf.append("\";");
        },
        None => {},
    }
    let ghost b1 = buf@;
    let mut i: usize = 0;
    while i < g.stmts.len()
        invariant
            0 <= i <= g.stmts@.len(),
            buf@ == b1 + stmts_text(g.stmts@.take(i as int)),
        decreases g.stmts@.len() - i,
    {
        buf.append("  ");
        let ghost b2 = buf@;
        proof {
            assert(decreases_to!(g => g.stmts));
            assert(decreases_to!(g.stmts => g.stmts@));
            assert(decreases_to!(g.stmts@ => g.stmts@[i as int]));
        }
        push_stmt(&g.stmts[i], buf);
        buf.append(";");
        proof {
            let t = g.stmts@.take(i + 1);
            assert(t.drop_last() =~= g.stmts@.take(i as int));
            assert(t.last() == g.stmts@[i as int]);
            assert(buf@ =~= b1 + stmts_text(t));
        }
        i = i + 1;
    }
    assert(g.stmts@.take(i as int) =~= g.stmts@);
    buf.append("}");
    assert(buf@ =~= b0 + subgraph_text(*g));
}

impl DotStmt {
    /// The displayed form of `self`.
    pub fn to_string(&self) -> (r: String)
        ensures
            r@ == stmt_text(*self),
    {
        let mut buf = String::new();
        push_stmt(self, &mut buf);
        assert(buf@ =~= stmt_text(*self));
        buf
    }
}

impl DotSubGraph {
    /// Add `stmt` as the last statement of `self`.
    pub fn add<S: Into<DotStmt>>(&mut self, stmt: S)
        ensures
            final(self).is_cluster == old(self).is_cluster,
            final(self).bgcolor == old(self).bgcolor,
            final(self).stmts@.len() == old(self).stmts@.len() + 1,
            final(self).stmts@.drop_last() == old(self).stmts@,
            S::obeys_into_spec() ==> final(self).stmts@.last() == stmt.into_spec(),
    {
        let s: DotStmt = stmt.into();
        self.stmts.push(s);
        assert(self.stmts@.drop_last() =~= old(self).stmts@);
    }

    /// The displayed form of `self`, on one line.
    pub fn to_string(&self) -> (r: String)
        ensures
            r@ == subgraph_text(*self),
    {
        let mut buf = String::new();
        push_subgraph(self, &mut buf);
        assert(buf@ =~= subgraph_text(*self));
        buf
    }
}

impl From<DotNode> for DotStmt {
    fn from(n: DotNode) -> (r: Self)
        ensures
            r == DotStmt::Node(n),
    {
        DotStmt::Node(n)
    }
}

impl vstd::std_specs::convert::FromSpecImpl<DotNode> for DotStmt {
    open spec fn obeys_from_spec() -> bool {
        true
    }

    open spec fn from_spec(n: DotNode) -> DotStmt {
        DotStmt::Node(n)
    }
}

impl From<DotEdge> for DotStmt {
    fn from(e: DotEdge) -> (r: Self)
        ensures
            r == DotStmt::Edge(e),
    {
        DotStmt::Edge(e)
    }
}

impl vstd::std_specs::convert::FromSpecImpl<DotEdge> for DotStmt {
    open spec fn obeys_from_spec() -> bool {
        true
    }

    open spec fn from_spec(e: DotEdge) -> DotStmt {
        DotStmt::Edge(e)
    }
}

impl From<DotSubGraph> for DotStmt {
    fn from(g: DotSubGraph) -> (r: Self)
        ensures
            r == DotStmt::Subgraph(g),
    {
        DotStmt::Subgraph(g)
    }
}

impl vstd::std_specs::convert::FromSpecImpl<DotSubGraph> for DotStmt {
    open spec fn obeys_from_spec() -> bool {
        true
    }

    open spec fn from_spec(g: DotSubGraph) -> DotStmt {
        DotStmt::Subgraph(g)
    }
}

impl From<DotOverlap> for DotStmt {
    fn from(o: DotOverlap) -> (r: Self)
        ensures
            r == DotStmt::Overlap(o),
    {
        DotStmt::Overlap(o)
    }
}

impl vstd::std_specs::convert::FromSpecImpl<DotOverlap> for DotStmt {
    open spec fn obeys_from_spec() -> bool {
        true
    }

    open spec fn from_spec(o: DotOverlap) -> DotStmt {
        DotStmt::Overlap(o)
    }
}

impl From<usize> for DotStmt {
    fn from(sep: usize) -> (r: Self)
        ensures
            r == DotStmt::RankSeparation(sep),
    {
        DotStmt::RankSeparation(sep)
    }
}

impl vstd::std_specs::convert::FromSpecImpl<usize> for DotStmt {
    open spec fn obeys_from_spec() -> bool {
        true
    }

    open spec fn from_spec(sep: usize) -> DotStmt {
        DotStmt::RankSeparation(sep)
    }
}

impl From<(DotRankStmt, Vec<NodeIdx>)> for DotStmt {
    fn from(rn: (DotRankStmt, Vec<NodeIdx>)) -> (r: Self)
        ensures
            r == (DotStmt::Rank { rank: rn.0, nodes: rn.1 }),
    {
        DotStmt::Rank { rank: rn.0, nodes: rn.1 }
    }
}

impl vstd::std_specs::convert::FromSpecImpl<(DotRankStmt, Vec<NodeIdx>)> for DotStmt {
    open spec fn obeys_from_spec() -> bool {
        true
    }

    open spec fn from_spec(rn: (DotRankStmt, Vec<NodeIdx>)) -> DotStmt {
        DotStmt::Rank { rank: rn.0, nodes: rn.1 }
    }
}

/// A directed graph: a background color, a rank direction and statements.
#[derive(Debug, PartialEq, Eq, PartialOrd, Ord, Hash)]
pub struct DotGraph {
    /// The background color
    pub bgcolor: Option<String>,
    /// The rank direction
    pub rankdir: Option<DotRankDir>,
    pub stmts: Vec<DotStmt>,
}

/// The statements of a graph, each on a line of its own after two spaces.
pub open spec fn graph_stmts_text(ss: Seq<DotStmt>) -> Seq<char>
    decreases ss.len(),
{
    if ss.len() == 0 {
        Seq::empty()
    } else {
        graph_stmts_text(ss.drop_last()) + "  "@ + stmt_text(ss.last()) + "\n"@
    }
}

/// The displayed form of a graph: its `dot` source.
pub open spec fn graph_text(g: DotGraph) -> Seq<char> {
    "digraph {\n"@ + (match g.bgcolor {
        Some(b) => "  bgcolor=\""@ + b@ + "\";\n"@,
        None => Seq::empty(),
    }) + (match g.rankdir {
        Some(d) => "  rankdir="@ + rank_dir_text(d) + ";\n"@,
        None => Seq::empty(),
    }) + graph_stmts_text(g.stmts@) + "}\n"@
}

impl Default for DotGraph {
    fn default() -> (r: Self)
        ensures
            r.bgcolor matches Some(b) && b@ == "#3c3c3c"@,
            r.rankdir == Some(DotRankDir::TopToBottom),
            r.stmts@.len() == 0,
    {
        Self::new()
    }
}

impl DotGraph {
    /// An empty graph on a dark gray background (`#3c3c3c`), laid out top
    /// to bottom.
    pub fn new() -> (r: Self)
        ensures
            r.bgcolor matches Some(b) && b@ == "#3c3c3c"@,
            r.rankdir == Some(DotRankDir::TopToBottom),
            r.stmts@.len() == 0,
    {
        DotGraph { bgcolor: Some(String::from_str("#3c3c3c")), rankdir: Some(DotRankDir::TopToBottom), stmts: Vec::new() }
    }

    /// Add `stmt` as the last statement of `self`.
    pub fn add<S: Into<DotStmt>>(&mut self, stmt: S)
        ensures
            final(self).bgcolor == old(self).bgcolor,
            final(self).rankdir == old(self).rankdir,
            final(self).stmts@.len() == old(self).stmts@.len() + 1,
            final(self).stmts@.drop_last() == old(self).stmts@,
            S::obeys_into_spec() ==> final(self).stmts@.last() == stmt.into_spec(),
    {
        let s: DotStmt = stmt.into();
        self.stmts.push(s);
        assert(self.stmts@.drop_last() =~= old(self).stmts@);
    }

    /// The `dot` source of `self`: a `digraph` with its background color
    /// and rank direction, if set, and each statement on a line of its own.
    pub fn to_string(&self) -> (r: String)
        ensures
            r@ == graph_text(*self),
    {
        let mut buf = String::new();
        buf.append("digraph {\n");
        match &self.bgcolor {
            Some(b) => {
                buf.append("  bgcolor=\"");
                buf.append(b.as_str());
                buf.append("\";\n");
            },
            None => {},
        }
        match &self.rankdir {
            Some(d) => {
                buf.append("  rankdir=");
                buf.append(d.text());
                buf.append(";\n");
            },
            None => {},
        }
        let ghost b1 = buf@;
        let mut i: usize = 0;
        while i < self.stmts.len()
            invariant
                0 <= i <= self.stmts@.len(),
                buf@ == b1 + graph_stmts_text(self.stmts@.take(i as int)),
            decreases self.stmts@.len() - i,
        {
            buf.append("  ");
            push_stmt(&self.stmts[i], &mut buf);
            buf.append("\n");
            proof {
                let t = self.stmts@.take(i + 1);
                assert(t.drop_last() =~= self.stmts@.take(i as int));
                assert(t.last() == self.stmts@[i as int]);
                assert(buf@ =~= b1 + graph_stmts_text(t));
            }
            i = i + 1;
        }
        assert(self.stmts@.take(i as int) =~= self.stmts@);
        buf.append("}\n");
        assert(buf@ =~= graph_text(*self));
        buf
    }
}

/// The `dot` source of a graph with a rank direction sets `rankdir` to the
/// Graphviz code of that direction: the initials of the side where ranks
/// start and of the side where they end (`TB` top to bottom, `BT` bottom to
/// top, `LR` left to right, `RL` right to left).
pub proof fn lemma_graph_text_rankdir(g: DotGraph)
    ensures
        g.rankdir matches Some(d) ==> occurs_in(
            "  rankdir="@ + match d {
                DotRankDir::TopToBottom => seq!['T', 'B'],
                DotRankDir::BottomToTop => seq!['B', 'T'],
                DotRankDir::LeftToRight => seq!['L', 'R'],
                DotRankDir::RightToLeft => seq!['R', 'L'],
            } + ";\n"@,
            graph_text(g),
        ),
{
    if let Some(d) = g.rankdir {
        reveal_strlit("TB");
        reveal_strlit("BT");
        reveal_strlit("LR");
        reveal_strlit("RL");
        let code: Seq<char> = match d {
            DotRankDir::TopToBottom => seq!['T', 'B'],
            DotRankDir::BottomToTop => seq!['B', 'T'],
            DotRankDir::LeftToRight => seq!['L', 'R'],
            DotRankDir::RightToLeft => seq!['R', 'L'],
        };
        assert(rank_dir_text(d) =~= code);
        let pre = "digraph {\n"@ + (match g.bgcolor {
            Some(b) => "  bgcolor=\""@ + b@ + "\";\n"@,
            None => Seq::empty(),
        });
        let t = "  rankdir="@ + code + ";\n"@;
        let src = graph_text(g);
        assert(src =~= pre + t + graph_stmts_text(g.stmts@) + "}\n"@);
        let i = pre.len() as int;
        assert(src.subrange(i, i + t.len()) =~= t);
    }
}

/// The `dot` source of a graph is a `digraph` block: it starts with
/// `digraph {` on a line of its own, ends with `}` on a line of its own,
/// and sets the background color, when the graph has one, quoted on the
/// line after the opening one.
pub proof fn lemma_graph_text_frame(g: DotGraph)
    ensures
        graph_text(g).take(("digraph {"@ + "\n"@).len() as int) == "digraph {"@ + "\n"@,
        graph_text(g).skip(graph_text(g).len() - ("}"@ + "\n"@).len()) == "}"@ + "\n"@,
        g.bgcolor matches Some(b) ==> graph_text(g).subrange(
            ("digraph {"@ + "\n"@).len() as int,
            ("digraph {"@ + "\n"@ + "  bgcolor="@ + "\""@ + b@ + "\""@ + ";"@ + "\n"@).len() as int,
        ) == "  bgcolor="@ + "\""@ + b@ + "\""@ + ";"@ + "\n"@,
{
    reveal_strlit("digraph {\n");
    reveal_strlit("digraph {");
    reveal_strlit("\n");
    reveal_strlit("}\n");
    reveal_strlit("}");
    reveal_strlit("  bgcolor=\"");
    reveal_strlit("  bgcolor=");
    reveal_strlit("\"");
    reveal_strlit("\";\n");
    reveal_strlit(";");
    let src = graph_text(g);
    let open = "digraph {"@ + "\n"@;
    let close = "}"@ + "\n"@;
    assert("digraph {\n"@ =~= open);
    assert("}\n"@ =~= close);
    let bg: Seq<char> = match g.bgcolor {
        Some(b) => "  bgcolor=\""@ + b@ + "\";\n"@,
        None => Seq::empty(),
    };
    let rd: Seq<char> = match g.rankdir {
        Some(d) => "  rankdir="@ + rank_dir_text(d) + ";\n"@,
        None => Seq::empty(),
    };
    assert(src =~= open + bg + rd + graph_stmts_text(g.stmts@) + close);
    assert(src.take(open.len() as int) =~= open);
    assert(src.skip(src.len() - close.len()) =~= close);
    if let Some(b) = g.bgcolor {
        let line = "  bgcolor="@ + "\""@ + b@ + "\""@ + ";"@ + "\n"@;
        assert(bg =~= line);
        assert(src.subrange(open.len() as int, (open + line).len() as int) =~= line);
    }
}

/// A statement that `to_graphviz_graph` makes for a node: the node itself,
/// its `k`-th parent edge or its `k`-th child edge.
pub ghost enum GraphItem {
    Node(NodeIdx),
    Parent(NodeIdx, int),
    Child(NodeIdx, int),
}

/// The statements made for node `x`: the node, then its parent edges, then
/// its child edges, leftmost first.
pub open spec fn node_items<D, P, C>(v: ArenaView<D, P, C>, x: NodeIdx) -> Seq<GraphItem> {
    seq![GraphItem::Node(x)] + Seq::new(v.node(x).parents.len(), |k: int| GraphItem::Parent(x, k)) + Seq::new(
        v.node(x).children.len(),
        |k: int| GraphItem::Child(x, k),
    )
}

/// The statements made for the nodes of `order`, node by node.
pub open spec fn graph_items<D, P, C>(v: ArenaView<D, P, C>, order: Seq<NodeIdx>) -> Seq<GraphItem>
    decreases order.len(),
{
    if order.len() == 0 {
        Seq::empty()
    } else {
        graph_items(v, order.drop_last()) + node_items(v, order.last())
    }
}

/// `s` is the statement made for `it`: a node labelled by `nl`, a parent
/// edge labelled by `pl` and colored purple, or a child edge labelled by
/// `cl` and colored charcoal (`#36454F`).
pub open spec fn item_stmt<D, P, C, NL: Fn(&D) -> String, PL: Fn(&P) -> String, CL: Fn(&C) -> String>(
    v: ArenaView<D, P, C>,
    it: GraphItem,
    s: DotStmt,
    nl: NL,
    pl: PL,
    cl: CL,
) -> bool {
    match it {
        GraphItem::Node(x) => match s {
            DotStmt::Node(n) => n.idx == x && match n.attrs.label {
                Some(l) => nl.ensures((&v.node(x).data,), l) && labelled(n.attrs, l, None),
                None => false,
            },
            _ => false,
        },
        GraphItem::Parent(x, k) => match s {
            DotStmt::Edge(e) => e.src == x && e.dst == v.node(x).parents[k].0 && match e.attrs.label {
                Some(l) => pl.ensures((&v.node(x).parents[k].1,), l) && labelled(e.attrs, l, Some("purple"@)),
                None => false,
            },
            _ => false,
        },
        GraphItem::Child(x, k) => match s {
            DotStmt::Edge(e) => e.src == x && e.dst == v.node(x).children[k].0 && match e.attrs.label {
                Some(l) => cl.ensures((&v.node(x).children[k].1,), l) && labelled(e.attrs, l, Some("#36454F"@)),
                None => false,
            },
            _ => false,
        },
    }
}

/// `s` is the statement of node `x`.
pub open spec fn node_stmt_for(s: DotStmt, x: NodeIdx) -> bool {
    match s {
        DotStmt::Node(n) => n.idx == x,
        _ => false,
    }
}

/// `s` is an edge statement from `x` to `y`, drawn in `color`.
pub open spec fn edge_stmt_to(s: DotStmt, x: NodeIdx, y: NodeIdx, color: Seq<char>) -> bool {
    match s {
        DotStmt::Edge(e) => e.src == x && e.dst == y && match e.attrs.color {
            Some(c) => c@ == color,
            None => false,
        },
        _ => false,
    }
}

/// `s` is an edge statement whose label is what `f` makes of `d`.
pub open spec fn edge_label_by<T, F: Fn(&T) -> String>(s: DotStmt, f: F, d: &T) -> bool {
    match s {
        DotStmt::Edge(e) => match e.attrs.label {
            Some(l) => f.ensures((d,), l),
            None => false,
        },
        _ => false,
    }
}

/// The statements made for two runs of nodes, one after the other, are
/// those made for the nodes of both.
proof fn lemma_graph_items_concat<D, P, C>(v: ArenaView<D, P, C>, a: Seq<NodeIdx>, b: Seq<NodeIdx>)
    ensures
        graph_items(v, a + b) == graph_items(v, a) + graph_items(v, b),
    decreases b.len(),
{
    if b.len() == 0 {
        assert(a + b =~= a);
        assert(graph_items(v, a) + Seq::<GraphItem>::empty() =~= graph_items(v, a));
    } else {
        lemma_graph_items_concat(v, a, b.drop_last());
        assert((a + b).drop_last() =~= a + b.drop_last());
        assert((a + b).last() == b.last());
        assert(graph_items(v, a) + graph_items(v, b.drop_last()) + node_items(v, b.last()) =~= graph_items(v, a) + (
        graph_items(v, b.drop_last()) + node_items(v, b.last())));
    }
}

/// Where the statements made for the `j`-th node of `order` begin.
proof fn lemma_graph_items_at<D, P, C>(v: ArenaView<D, P, C>, order: Seq<NodeIdx>, j: int)
    requires
        0 <= j < order.len(),
    ensures
        ({
            let base = graph_items(v, order.take(j)).len() as int;
            let x = order[j];
            &&& base + node_items(v, x).len() <= graph_items(v, order).len()
            &&& graph_items(v, order)[base] == GraphItem::Node(x)
            &&& forall|k: int|
                0 <= k < v.node(x).parents.len() ==> graph_items(v, order)[base + 1 + k] == GraphItem::Parent(x, k)
            &&& forall|k: int|
                0 <= k < v.node(x).children.len() ==> graph_items(v, order)[base + 1 + v.node(x).parents.len() + k]
                    == GraphItem::Child(x, k)
        }),
{
    let x = order[j];
    let a = order.take(j);
    let b = order.skip(j + 1);
    assert(order =~= a + seq![x] + b);
    lemma_graph_items_concat(v, a + seq![x], b);
    lemma_graph_items_concat(v, a, seq![x]);
    assert(seq![x].drop_last() =~= Seq::<NodeIdx>::empty());
    assert(seq![x].last() == x);
    assert(graph_items(v, Seq::<NodeIdx>::empty()) == Seq::<GraphItem>::empty());
    assert(graph_items(v, seq![x]) =~= node_items(v, x));
    let g = graph_items(v, order);
    let base = graph_items(v, a).len() as int;
    assert(g == graph_items(v, a) + node_items(v, x) + graph_items(v, b));
    let ni = node_items(v, x);
    assert(g[base] == ni[0]);
    assert forall|k: int| 0 <= k < v.node(x).parents.len() implies g[base + 1 + k] == GraphItem::Parent(x, k) by {
        assert(g[base + 1 + k] == ni[1 + k]);
    }
    assert forall|k: int| 0 <= k < v.node(x).children.len() implies g[base + 1 + v.node(x).parents.len() + k]
        == GraphItem::Child(x, k) by {
        assert(g[base + 1 + v.node(x).parents.len() + k] == ni[1 + v.node(x).parents.len() + k]);
    }
}

/// A graph made as `to_graphviz_graph` makes it, for the nodes of `order`,
/// has a statement for every one of them, an edge to each of its parents
/// labelled by `pl` with the edge's data, and an edge to each of its
/// children labelled by `cl` with the edge's data: none is left out.
pub proof fn lemma_graph_has_every_edge<D, P, C, NL: Fn(&D) -> String, PL: Fn(&P) -> String, CL: Fn(&C) -> String>(
    v: ArenaView<D, P, C>,
    order: Seq<NodeIdx>,
    ss: Seq<DotStmt>,
    nl: NL,
    pl: PL,
    cl: CL,
)
    requires
        ss.len() == graph_items(v, order).len(),
        forall|i: int| 0 <= i < ss.len() ==> item_stmt(v, #[trigger] graph_items(v, order)[i], ss[i], nl, pl, cl),
    ensures
        forall|j: int|
            #![trigger order[j]]
            0 <= j < order.len() ==> exists|i: int| 0 <= i < ss.len() && node_stmt_for(#[trigger] ss[i], order[j]),
        forall|j: int, k: int|
            #![trigger v.node(order[j]).children[k]]
            0 <= j < order.len() && 0 <= k < v.node(order[j]).children.len() ==> exists|i: int|
                0 <= i < ss.len() && edge_stmt_to(
                    #[trigger] ss[i],
                    order[j],
                    v.node(order[j]).children[k].0,
                    "#36454F"@,
                ) && edge_label_by(
                    ss[i],
                    cl,
                    &v.node(order[j]).children[k].1,
                ),
        forall|j: int, k: int|
            #![trigger v.node(order[j]).parents[k]]
            0 <= j < order.len() && 0 <= k < v.node(order[j]).parents.len() ==> exists|i: int|
                0 <= i < ss.len() && edge_stmt_to(
                    #[trigger] ss[i],
                    order[j],
                    v.node(order[j]).parents[k].0,
                    "purple"@,
                ) && edge_label_by(
                    ss[i],
                    pl,
                    &v.node(order[j]).parents[k].1,
                ),
{
    let g = graph_items(v, order);
    assert forall|j: int| #![trigger order[j]] 0 <= j < order.len() implies exists|i: int|
        0 <= i < ss.len() && node_stmt_for(#[trigger] ss[i], order[j]) by {
        lemma_graph_items_at(v, order, j);
        let i = graph_items(v, order.take(j)).len() as int;
        assert(item_stmt(v, g[i], ss[i], nl, pl, cl));
    }
    assert forall|j: int, k: int|
        #![trigger v.node(order[j]).children[k]]
        0 <= j < order.len() && 0 <= k < v.node(order[j]).children.len() implies exists|i: int|
        0 <= i < ss.len() && edge_stmt_to(
            #[trigger] ss[i],
            order[j],
            v.node(order[j]).children[k].0,
            "#36454F"@,
        ) && edge_label_by(
            ss[i],
            cl,
            &v.node(order[j]).children[k].1,
        ) by {
        lemma_graph_items_at(v, order, j);
        let base = graph_items(v, order.take(j)).len() as int;
        let i = base + 1 + v.node(order[j]).parents.len() + k;
        assert(g[base + 1 + v.node(order[j]).parents.len() + k] == GraphItem::Child(order[j], k));
        assert(item_stmt(v, g[i], ss[i], nl, pl, cl));
    }
    assert forall|j: int, k: int|
        #![trigger v.node(order[j]).parents[k]]
        0 <= j < order.len() && 0 <= k < v.node(order[j]).parents.len() implies exists|i: int|
        0 <= i < ss.len() && edge_stmt_to(
            #[trigger] ss[i],
            order[j],
            v.node(order[j]).parents[k].0,
            "purple"@,
        ) && edge_label_by(
            ss[i],
            pl,
            &v.node(order[j]).parents[k].1,
        ) by {
        lemma_graph_items_at(v, order, j);
        let base = graph_items(v, order.take(j)).len() as int;
        let i = base + 1 + k;
        assert(g[base + 1 + k] == GraphItem::Parent(order[j], k));
        assert(item_stmt(v, g[i], ss[i], nl, pl, cl));
    }
}

impl<D, P, C> Arena<D, P, C> {
    /// The graph of `self[root_idx]` and the nodes below it: for each node
    /// in breadth-first order, a node statement labelled with its data, then
    /// a purple edge to each parent and a charcoal edge to each child, each
    /// labelled with the edge's data.  The labels are what `node_label`,
    /// `parent_label` and `child_label` make of the data.
    pub fn to_graphviz_graph<NL, PL, CL>(
        &self,
        root_idx: NodeIdx,
        node_label: NL,
        parent_label: PL,
        child_label: CL,
    ) -> (r: DotGraph) where NL: Fn(&D) -> String, PL: Fn(&P) -> String, CL: Fn(&C) -> String
        requires
            self@.wf(),
            self@.has(root_idx),
            forall|d: &D| #[trigger] node_label.requires((d,)),
            forall|p: &P| #[trigger] parent_label.requires((p,)),
            forall|c: &C| #[trigger] child_label.requires((c,)),
        ensures
            r.bgcolor matches Some(b) && b@ == "#3c3c3c"@,
            r.rankdir == Some(DotRankDir::TopToBottom),
            r.stmts@.len() == graph_items(self@, self@.bfs_from(root_idx)).len(),
            forall|i: int|
                0 <= i < r.stmts@.len() ==> item_stmt(
                    self@,
                    #[trigger] graph_items(self@, self@.bfs_from(root_idx))[i],
                    r.stmts@[i],
                    node_label,
                    parent_label,
                    child_label,
                ),
            forall|j: int, k: int|
                #![trigger self@.node(self@.bfs_from(root_idx)[j]).children[k]]
                0 <= j < self@.bfs_from(root_idx).len() && 0 <= k < self@.node(
                    self@.bfs_from(root_idx)[j],
                ).children.len() ==> exists|i: int|
                    0 <= i < r.stmts@.len() && edge_stmt_to(
                        #[trigger] r.stmts@[i],
                        self@.bfs_from(root_idx)[j],
                        self@.node(self@.bfs_from(root_idx)[j]).children[k].0,
                        "#36454F"@,
                    ) && edge_label_by(r.stmts@[i], child_label, &self@.node(self@.bfs_from(root_idx)[j]).children[k].1),
            forall|j: int, k: int|
                #![trigger self@.node(self@.bfs_from(root_idx)[j]).parents[k]]
                0 <= j < self@.bfs_from(root_idx).len() && 0 <= k < self@.node(
                    self@.bfs_from(root_idx)[j],
                ).parents.len() ==> exists|i: int|
                    0 <= i < r.stmts@.len() && edge_stmt_to(
                        #[trigger] r.stmts@[i],
                        self@.bfs_from(root_idx)[j],
                        self@.node(self@.bfs_from(root_idx)[j]).parents[k].0,
                        "purple"@,
                    ) && edge_label_by(r.stmts@[i], parent_label, &self@.node(self@.bfs_from(root_idx)[j]).parents[k].1),
    {
        let ghost v = self@;
        let order = self.bfs(root_idx);
        proof {
            lemma_bfs_in_range(v, root_idx);
        }
        let mut graph = DotGraph::new();
        let mut i: usize = 0;
        while i < order.len()
            invariant
                v == self@,
                v.wf(),
                order@ == v.bfs_from(root_idx),
                forall|k: int| 0 <= k < order@.len() ==> v.has(#[trigger] order@[k]),
                forall|d: &D| #[trigger] node_label.requires((d,)),
                forall|p: &P| #[trigger] parent_label.requires((p,)),
                forall|c: &C| #[trigger] child_label.requires((c,)),
                0 <= i <= order@.len(),
                graph.bgcolor matches Some(b) && b@ == "#3c3c3c"@,
                graph.rankdir == Some(DotRankDir::TopToBottom),
                graph.stmts@.len() == graph_items(v, order@.take(i as int)).len(),
                forall|j: int|
                    0 <= j < graph.stmts@.len() ==> item_stmt(
                        v,
                        #[trigger] graph_items(v, order@.take(i as int))[j],
                        graph.stmts@[j],
                        node_label,
                        parent_label,
                        child_label,
                    ),
            decreases order@.len() - i,
        {
            let x = order[i];
            assert(v.has(order@[i as int]));
            let ghost done = graph_items(v, order@.take(i as int));
            let ghost t = graph_items(v, order@.take(i + 1));
            proof {
                assert(order@.take(i + 1).drop_last() =~= order@.take(i as int));
                assert(order@.take(i + 1).last() == x);
                assert(t == done + node_items(v, x));
            }
            let node = self.node(x);
            assert(node@.idx == x);
            let label = node_label(&node.data);
            graph.stmts.push(DotStmt::Node(DotNode { idx: node.idx, attrs: DotAttrs::labelled(label, None) }));
            proof {
                assert(t[done.len() as int] == GraphItem::Node(x));
                assert forall|j: int| 0 <= j < graph.stmts@.len() implies item_stmt(
                    v,
                    #[trigger] t[j],
                    graph.stmts@[j],
                    node_label,
                    parent_label,
                    child_label,
                ) by {
                    if j < done.len() {
                        assert(t[j] == done[j]);
                    }
                }
            }
            let mut k: usize = 0;
            while k < node.parents.len()
                invariant
                    v == self@,
                    node@ == v.node(x),
                    x == node.idx,
                    t == done + node_items(v, x),
                    forall|p: &P| #[trigger] parent_label.requires((p,)),
                    0 <= k <= node@.parents.len(),
                    graph.bgcolor matches Some(b) && b@ == "#3c3c3c"@,
                    graph.rankdir == Some(DotRankDir::TopToBottom),
                    graph.stmts@.len() == done.len() + 1 + k,
                    forall|j: int|
                        0 <= j < graph.stmts@.len() ==> item_stmt(
                            v,
                            #[trigger] t[j],
                            graph.stmts@[j],
                            node_label,
                            parent_label,
                            child_label,
                        ),
                decreases node@.parents.len() - k,
            {
                let label = parent_label(&node.parents[k].1);
                let ghost before = graph.stmts@;
                graph.stmts.push(
                    DotStmt::Edge(
                        DotEdge { src: node.idx, dst: node.parents[k].0, attrs: DotAttrs::labelled(label, Some("purple")) },
                    ),
                );
                proof {
                    assert(t[done.len() + 1 + k] == GraphItem::Parent(x, k as int));
                    assert forall|j: int| 0 <= j < graph.stmts@.len() implies item_stmt(
                        v,
                        #[trigger] t[j],
                        graph.stmts@[j],
                        node_label,
                        parent_label,
                        child_label,
                    ) by {
                        if j < before.len() {
                            assert(graph.stmts@[j] == before[j]);
                        }
                    }
                }
                k = k + 1;
            }
            let mut k: usize = 0;
            while k < node.children.len()
                invariant
                    v == self@,
                    node@ == v.node(x),
                    x == node.idx,
                    t == done + node_items(v, x),
                    forall|c: &C| #[trigger] child_label.requires((c,)),
                    0 <= k <= node@.children.len(),
                    graph.bgcolor matches Some(b) && b@ == "#3c3c3c"@,
                    graph.rankdir == Some(DotRankDir::TopToBottom),
                    graph.stmts@.len() == done.len() + 1 + node@.parents.len() + k,
                    forall|j: int|
                        0 <= j < graph.stmts@.len() ==> item_stmt(
                            v,
                            #[trigger] t[j],
                            graph.stmts@[j],
                            node_label,
                            parent_label,
                            child_label,
                        ),
                decreases node@.children.len() - k,
            {
                let label = child_label(&node.children[k].1);
                let ghost before = graph.stmts@;
                graph.stmts.push(
                    DotStmt::Edge(
                        DotEdge {
                            src: node.idx,
                            dst: node.children[k].0,
                            attrs: DotAttrs::labelled(label, Some("#36454F")),
                        },
                    ),
                );
                proof {
                    assert(t[done.len() + 1 + node@.parents.len() + k] == GraphItem::Child(x, k as int));
                    assert forall|j: int| 0 <= j < graph.stmts@.len() implies item_stmt(
                        v,
                        #[trigger] t[j],
                        graph.stmts@[j],
                        node_label,
                        parent_label,
                        child_label,
                    ) by {
                        if j < before.len() {
                            assert(graph.stmts@[j] == before[j]);
                        }
                    }
                }
                k = k + 1;
            }
            i = i + 1;
        }
        assert(order@.take(i as int) =~= order@);
        proof {
            lemma_graph_has_every_edge(v, order@, graph.stmts@, node_label, parent_label, child_label);
        }
        graph
    }
}

/// A copy of `t`.
fn copy_text(t: &Option<String>) -> (r: Option<String>)
    ensures
        r == *t,
{
    match t {
        Some(x) => Some(x.clone()),
        None => None,
    }
}

/// A copy of `a`.
fn copy_attrs(a: &DotAttrs) -> (r: DotAttrs)
    ensures
        r == *a,
{
    DotAttrs {
        label: copy_text(&a.label),
        shape: copy_text(&a.shape),
        color: copy_text(&a.color),
        fontcolor: copy_text(&a.fontcolor),
        decorate: a.decorate,
        fontsize: a.fontsize,
        height: a.height,
        width: a.width,
        style: a.style,
        fillcolor: copy_text(&a.fillcolor),
    }
}

/// A copy of `s`, which displays as `s` does.
fn copy_stmt(s: &DotStmt) -> (r: DotStmt)
    ensures
        stmt_text(r) == stmt_text(*s),
    decreases s,
{
    match s {
        DotStmt::Node(n) => DotStmt::Node(DotNode { idx: n.idx, attrs: copy_attrs(&n.attrs) }),
        DotStmt::Edge(e) => DotStmt::Edge(DotEdge { src: e.src, dst: e.dst, attrs: copy_attrs(&e.attrs) }),
        DotStmt::Subgraph(g) => DotStmt::Subgraph(copy_subgraph(g)),
        DotStmt::Overlap(o) => DotStmt::Overlap(*o),
        DotStmt::RankSeparation(sep) => DotStmt::RankSeparation(*sep),
        DotStmt::Rank { rank, nodes } => {
            let copied = nodes.clone();
            assert(copied@ =~= nodes@);
            DotStmt::Rank { rank: *rank, nodes: copied }
        },
    }
}

/// Copies of the statements of `g`, in order.
fn copy_stmts(g: &DotSubGraph) -> (r: Vec<DotStmt>)
    ensures
        stmts_text(r@) == stmts_text(g.stmts@),
    decreases g, 0nat,
{
    let mut r: Vec<DotStmt> = Vec::new();
    let mut i: usize = 0;
    while i < g.stmts.len()
        invariant
            0 <= i <= g.stmts@.len(),
            r@.len() == i,
            stmts_text(r@) == stmts_text(g.stmts@.take(i as int)),
        decreases g.stmts@.len() - i,
    {
        proof {
            assert(decreases_to!(g => g.stmts));
            assert(decreases_to!(g.stmts => g.stmts@));
            assert(decreases_to!(g.stmts@ => g.stmts@[i as int]));
        }
        let c = copy_stmt(&g.stmts[i]);
        let ghost r0 = r@;
        r.push(c);
        proof {
            let t = g.stmts@.take(i + 1);
            assert(t.drop_last() =~= g.stmts@.take(i as int));
            assert(t.last() == g.stmts@[i as int]);
            assert(r@.drop_last() =~= r0);
        }
        i = i + 1;
    }
    assert(g.stmts@.take(i as int) =~= g.stmts@);
    r
}

/// A copy of `g`, which displays as `g` does.
fn copy_subgraph(g: &DotSubGraph) -> (r: DotSubGraph)
    ensures
        subgraph_text(r) == subgraph_text(*g),
    decreases g, 1nat,
{
    DotSubGraph { is_cluster: g.is_cluster, bgcolor: copy_text(&g.bgcolor), stmts: copy_stmts(g) }
}

impl Clone for DotStmt {
    /// A copy of `self`, which displays as `self` does.
    fn clone(&self) -> (r: Self)
        ensures
            stmt_text(r) == stmt_text(*self),
    {
        copy_stmt(self)
    }
}

impl Clone for DotSubGraph {
    /// A copy of `self`, which displays as `self` does.
    fn clone(&self) -> (r: Self)
        ensures
            subgraph_text(r) == subgraph_text(*self),
    {
        copy_subgraph(self)
    }
}

impl Clone for DotGraph {
    /// A copy of `self`, which displays as `self` does.
    fn clone(&self) -> (r: Self)
        ensures
            graph_text(r) == graph_text(*self),
    {
        let mut stmts: Vec<DotStmt> = Vec::new();
        let mut i: usize = 0;
        while i < self.stmts.len()
            invariant
                0 <= i <= self.stmts@.len(),
                graph_stmts_text(stmts@) == graph_stmts_text(self.stmts@.take(i as int)),
            decreases self.stmts@.len() - i,
        {
            let c = copy_stmt(&self.stmts[i]);
            let ghost s0 = stmts@;
            stmts.push(c);
            proof {
                let t = self.stmts@.take(i + 1);
                assert(t.drop_last() =~= self.stmts@.take(i as int));
                assert(t.last() == self.stmts@[i as int]);
                assert(stmts@.drop_last() =~= s0);
            }
            i = i + 1;
        }
        assert(self.stmts@.take(i as int) =~= self.stmts@);
        DotGraph { bgcolor: copy_text(&self.bgcolor), rankdir: self.rankdir, stmts }
    }
}

} // verus!
