//! The parse-tree graph: an insertion-ordered arena of nodes addressed by
//! integer position, plus a sequence of directed parent-to-child edges.
//!
//! A graph built through the operations below is always a forest: every
//! edge points from an earlier node to a strictly later one and no node
//! has two incoming edges. That shape is the well-formedness predicate
//! [`AstView::wf`], which `new` establishes and every mutation preserves.

use vstd::prelude::*;
use vstd::string::StringExecFns;

use crate::lexer::tokens::{LexKind, Token, TokenType, TokenView};

verus! {

#[derive(Debug, Clone)]
pub enum ASTError {
    UnableToFindParent,
}

/// Ghost image of a node kind.
pub enum NodeKind {
    Str(Seq<char>),
    Atom(Seq<char>),
    Comment(Seq<char>),
    Number(nat),
    Boolean(bool),
    Quote,
    Quasiquote,
    Unquote,
    UnquoteSplice,
    Expr,
    CloseExpr,
}

#[derive(Debug, PartialEq, Eq, Clone)]
pub enum NodeType {
    Str(String),
    Atom(String),
    Comment(String),
    Number(u128),
    Boolean(bool),
    Quote,
    Quasiquote,
    Unquote,
    UnquoteSplice,
    Expr,
    CloseExpr,
}

impl View for NodeType {
    type V = NodeKind;

    open spec fn view(&self) -> NodeKind {
        match self {
            NodeType::Str(s) => NodeKind::Str(s@),
            NodeType::Atom(s) => NodeKind::Atom(s@),
            NodeType::Comment(s) => NodeKind::Comment(s@),
            NodeType::Number(n) => NodeKind::Number(*n as nat),
            NodeType::Boolean(b) => NodeKind::Boolean(*b),
            NodeType::Quote => NodeKind::Quote,
            NodeType::Quasiquote => NodeKind::Quasiquote,
            NodeType::Unquote => NodeKind::Unquote,
            NodeType::UnquoteSplice => NodeKind::UnquoteSplice,
            NodeType::Expr => NodeKind::Expr,
            NodeType::CloseExpr => NodeKind::CloseExpr,
        }
    }
}

/// Ghost image of a node: row span, column span, kind.
pub struct NodeView {
    pub row: (nat, nat),
    pub col: (nat, nat),
    pub kind: NodeKind,
}

/// A tree node carrying the source span of the token it came from.
/// Nodes are compared by value, not by identity.
#[derive(Debug, PartialEq, Eq)]
pub struct Node {
    pub row: (usize, usize),
    pub col: (usize, usize),
    pub node_type: NodeType,
}

impl View for Node {
    type V = NodeView;

    open spec fn view(&self) -> NodeView {
        NodeView {
            row: (self.row.0 as nat, self.row.1 as nat),
            col: (self.col.0 as nat, self.col.1 as nat),
            kind: self.node_type@,
        }
    }
}

/// A directed edge from a parent node's index to a child node's index.
#[derive(Debug, PartialEq, Eq)]
pub struct Edge {
    pub parent: usize,
    pub child: usize,
}

impl View for Edge {
    type V = (int, int);

    open spec fn view(&self) -> (int, int) {
        (self.parent as int, self.child as int)
    }
}

pub open spec fn node_views(nodes: Seq<Node>) -> Seq<NodeView> {
    nodes.map_values(|n: Node| n@)
}

pub open spec fn edge_views(edges: Seq<Edge>) -> Seq<(int, int)> {
    edges.map_values(|e: Edge| e@)
}

/// Ghost image of the whole graph.
pub struct AstView {
    pub nodes: Seq<NodeView>,
    pub edges: Seq<(int, int)>,
}

/// Every edge runs from an earlier valid index to a strictly later
/// valid index of an arena of `n` nodes.
pub open spec fn edges_bounded(edges: Seq<(int, int)>, n: int) -> bool {
    forall|k: int|
        0 <= k < edges.len() ==> {
            &&& 0 <= (#[trigger] edges[k]).0
            &&& edges[k].0 < edges[k].1
            &&& edges[k].1 < n
        }
}

/// No two edges share a child: no node has two incoming edges.
pub open spec fn children_unique(edges: Seq<(int, int)>) -> bool {
    forall|a: int, b: int|
        0 <= a < b < edges.len() ==> (#[trigger] edges[a]).1 != (#[trigger] edges[b]).1
}

impl AstView {
    /// Forest shape: every edge runs from an earlier valid index to a
    /// strictly later valid index, and no node has two incoming edges.
    pub open spec fn wf(self) -> bool {
        edges_bounded(self.edges, self.nodes.len() as int) && children_unique(self.edges)
    }
}

#[derive(Debug, PartialEq)]
pub struct AST {
    pub nodes: Vec<Node>,
    pub edges: Vec<Edge>,
}

impl View for AST {
    type V = AstView;

    open spec fn view(&self) -> AstView {
        AstView { nodes: node_views(self.nodes@), edges: edge_views(self.edges@) }
    }
}

/// Children of `p`, in edge-insertion order.
pub open spec fn children_of(edges: Seq<(int, int)>, p: int) -> Seq<int>
    decreases edges.len(),
{
    if edges.len() == 0 {
        Seq::empty()
    } else {
        let rest = children_of(edges.drop_last(), p);
        if edges.last().0 == p {
            rest.push(edges.last().1)
        } else {
            rest
        }
    }
}

/// The parent recorded by the first edge into `c`, if any.
pub open spec fn first_parent(edges: Seq<(int, int)>, c: int) -> Option<int>
    decreases edges.len(),
{
    if edges.len() == 0 {
        None
    } else if edges.first().1 == c {
        Some(edges.first().0)
    } else {
        first_parent(edges.drop_first(), c)
    }
}

/// Index of the first node that equals `n` by value, if any.
pub open spec fn first_index_of(nodes: Seq<NodeView>, n: NodeView) -> Option<int>
    decreases nodes.len(),
{
    if nodes.len() == 0 {
        None
    } else if nodes.first() == n {
        Some(0)
    } else {
        match first_index_of(nodes.drop_first(), n) {
            Some(i) => Some(i + 1),
            None => None,
        }
    }
}

/// The edges left after detaching node `i`: every edge touching `i` is
/// dropped, the rest are unchanged.
pub open spec fn edges_without(edges: Seq<(int, int)>, i: int) -> Seq<(int, int)>
    decreases edges.len(),
{
    if edges.len() == 0 {
        Seq::empty()
    } else {
        let rest = edges_without(edges.drop_last(), i);
        let e = edges.last();
        if e.0 == i || e.1 == i {
            rest
        } else {
            rest.push(e)
        }
    }
}

/// An edge endpoint after node `i` has been removed: indices above `i`
/// shift down by one.
pub open spec fn shift_past(x: int, i: int) -> int {
    if x > i {
        x - 1
    } else {
        x
    }
}

/// The edges left after removing node `i`: edges touching `i` are
/// dropped, the rest have both endpoints renumbered past `i`.
pub open spec fn edges_after_removal(edges: Seq<(int, int)>, i: int) -> Seq<(int, int)>
    decreases edges.len(),
{
    if edges.len() == 0 {
        Seq::empty()
    } else {
        let rest = edges_after_removal(edges.drop_last(), i);
        let e = edges.last();
        if e.0 == i || e.1 == i {
            rest
        } else {
            rest.push((shift_past(e.0, i), shift_past(e.1, i)))
        }
    }
}

/// Root indices below `k`: node indices with no incoming edge.
pub open spec fn roots_upto(g: AstView, k: int) -> Seq<int>
    decreases k,
{
    if k <= 0 {
        Seq::empty()
    } else {
        roots_upto(g, k - 1) + (if first_parent(g.edges, k - 1) is None {
            seq![k - 1]
        } else {
            Seq::empty()
        })
    }
}

/// A node has no recorded parent exactly when no edge points into it:
/// the indices [`AST::get_base_node_indexes`] returns are precisely the
/// nodes with no incoming edge.
pub proof fn lemma_first_parent_none_iff(edges: Seq<(int, int)>, c: int)
    ensures
        (first_parent(edges, c) is None) <==> (forall|k: int|
            0 <= k < edges.len() ==> (#[trigger] edges[k]).1 != c),
    decreases edges.len(),
{
    if edges.len() > 0 {
        lemma_first_parent_none_iff(edges.drop_first(), c);
        if edges.first().1 != c {
            assert forall|k: int|
                0 <= k < edges.drop_first().len() implies #[trigger] edges.drop_first()[k]
                == edges[k + 1] by {}
            if first_parent(edges, c) is None {
                assert forall|k: int| 0 <= k < edges.len() implies (#[trigger] edges[k]).1 != c by {
                    if k > 0 {
                        assert(edges.drop_first()[k - 1] == edges[k]);
                    }
                }
            }
        }
    }
}

proof fn lemma_first_index_of_props(ns: Seq<NodeView>, n: NodeView)
    ensures
        match first_index_of(ns, n) {
            Some(i) => 0 <= i < ns.len() && ns[i] == n,
            None => true,
        },
    decreases ns.len(),
{
    if ns.len() > 0 && ns.first() != n {
        lemma_first_index_of_props(ns.drop_first(), n);
    }
}

proof fn lemma_first_index_of_from_prefix(ns: Seq<NodeView>, n: NodeView, k: int)
    requires
        0 <= k <= ns.len(),
        forall|j: int| 0 <= j < k ==> ns[j] != n,
        k < ns.len() ==> ns[k] == n,
    ensures
        k < ns.len() ==> first_index_of(ns, n) == Some(k),
        k == ns.len() ==> first_index_of(ns, n) is None,
    decreases ns.len(),
{
    if ns.len() == 0 {
    } else if ns.first() == n {
        assert(k == 0);
    } else {
        lemma_first_index_of_from_prefix(ns.drop_first(), n, k - 1);
    }
}

/// Both well-formedness conditions restrict to any prefix.
proof fn lemma_edges_prefix_wf(edges: Seq<(int, int)>, n: int)
    requires
        edges.len() > 0,
        edges_bounded(edges, n),
        children_unique(edges),
    ensures
        edges_bounded(edges.drop_last(), n),
        children_unique(edges.drop_last()),
{
    assert forall|k: int| 0 <= k < edges.drop_last().len() implies {
        &&& 0 <= (#[trigger] edges.drop_last()[k]).0
        &&& edges.drop_last()[k].0 < edges.drop_last()[k].1
        &&& edges.drop_last()[k].1 < n
    } by {
        assert(edges.drop_last()[k] == edges[k]);
    }
    assert forall|a: int, b: int| 0 <= a < b < edges.drop_last().len() implies (
    #[trigger] edges.drop_last()[a]).1 != (#[trigger] edges.drop_last()[b]).1 by {
        assert(edges.drop_last()[a] == edges[a] && edges.drop_last()[b] == edges[b]);
    }
}

/// If no edge of the sequence has child `c`, none survives detachment
/// with child `c` either.
proof fn lemma_edges_without_no_child(edges: Seq<(int, int)>, i: int, c: int)
    requires
        forall|k: int| 0 <= k < edges.len() ==> (#[trigger] edges[k]).1 != c,
    ensures
        forall|k: int|
            0 <= k < edges_without(edges, i).len() ==> (#[trigger] edges_without(edges, i)[k]).1
                != c,
    decreases edges.len(),
{
    if edges.len() > 0 {
        assert forall|k: int| 0 <= k < edges.drop_last().len() implies (
        #[trigger] edges.drop_last()[k]).1 != c by {
            assert(edges.drop_last()[k] == edges[k]);
        }
        lemma_edges_without_no_child(edges.drop_last(), i, c);
        let r = edges_without(edges, i);
        let rest = edges_without(edges.drop_last(), i);
        assert forall|k: int| 0 <= k < r.len() implies (#[trigger] r[k]).1 != c by {
            if k < rest.len() {
                assert(r[k] == rest[k]);
            } else {
                assert(r[k] == edges[edges.len() - 1]);
            }
        }
    }
}

/// If no edge of the sequence has child `c`, no edge surviving the
/// removal of node `i` has the renumbered child `shift_past(c, i)`.
proof fn lemma_edges_after_removal_no_child(edges: Seq<(int, int)>, i: int, c: int)
    requires
        c != i,
        forall|k: int| 0 <= k < edges.len() ==> (#[trigger] edges[k]).1 != c,
    ensures
        forall|k: int|
            0 <= k < edges_after_removal(edges, i).len() ==> (#[trigger] edges_after_removal(
                edges,
                i,
            )[k]).1 != shift_past(c, i),
    decreases edges.len(),
{
    if edges.len() > 0 {
        assert forall|k: int| 0 <= k < edges.drop_last().len() implies (
        #[trigger] edges.drop_last()[k]).1 != c by {
            assert(edges.drop_last()[k] == edges[k]);
        }
        lemma_edges_after_removal_no_child(edges.drop_last(), i, c);
        let r = edges_after_removal(edges, i);
        let rest = edges_after_removal(edges.drop_last(), i);
        let e = edges[edges.len() - 1];
        assert forall|k: int| 0 <= k < r.len() implies (#[trigger] r[k]).1 != shift_past(c, i) by {
            if k < rest.len() {
                assert(r[k] == rest[k]);
            } else {
                assert(r[k] == (shift_past(e.0, i), shift_past(e.1, i)));
                assert(e.1 != i && e.1 != c);
                assert(shift_past(e.1, i) != shift_past(c, i));
            }
        }
    }
}

/// Detaching a node preserves the forest shape.
proof fn lemma_edges_without_wf(edges: Seq<(int, int)>, i: int, n: int)
    requires
        edges_bounded(edges, n),
        children_unique(edges),
    ensures
        edges_bounded(edges_without(edges, i), n),
        children_unique(edges_without(edges, i)),
    decreases edges.len(),
{
    if edges.len() > 0 {
        lemma_edges_prefix_wf(edges, n);
        lemma_edges_without_wf(edges.drop_last(), i, n);
        let r = edges_without(edges, i);
        let rest = edges_without(edges.drop_last(), i);
        let e = edges[edges.len() - 1];
        if !(e.0 == i || e.1 == i) {
            // the surviving last edge brings a child no earlier edge has
            assert forall|k: int| 0 <= k < edges.drop_last().len() implies (
            #[trigger] edges.drop_last()[k]).1 != e.1 by {
                assert(edges.drop_last()[k] == edges[k]);
            }
            lemma_edges_without_no_child(edges.drop_last(), i, e.1);
        }
        assert forall|k: int| 0 <= k < r.len() implies {
            &&& 0 <= (#[trigger] r[k]).0
            &&& r[k].0 < r[k].1
            &&& r[k].1 < n
        } by {
            if k < rest.len() {
                assert(r[k] == rest[k]);
            } else {
                assert(r[k] == e);
            }
        }
        assert forall|a: int, b: int| 0 <= a < b < r.len() implies (#[trigger] r[a]).1 != (
        #[trigger] r[b]).1 by {
            if b < rest.len() {
                assert(r[a] == rest[a] && r[b] == rest[b]);
            } else {
                assert(r[b] == e && r[a] == rest[a]);
            }
        }
    }
}

/// Removing a node preserves the forest shape on the shrunk arena.
proof fn lemma_edges_after_removal_wf(edges: Seq<(int, int)>, i: int, n: int)
    requires
        0 <= i < n,
        edges_bounded(edges, n),
        children_unique(edges),
    ensures
        edges_bounded(edges_after_removal(edges, i), n - 1),
        children_unique(edges_after_removal(edges, i)),
    decreases edges.len(),
{
    if edges.len() > 0 {
        lemma_edges_prefix_wf(edges, n);
        lemma_edges_after_removal_wf(edges.drop_last(), i, n);
        let r = edges_after_removal(edges, i);
        let rest = edges_after_removal(edges.drop_last(), i);
        let e = edges[edges.len() - 1];
        let se = (shift_past(e.0, i), shift_past(e.1, i));
        if !(e.0 == i || e.1 == i) {
            assert forall|k: int| 0 <= k < edges.drop_last().len() implies (
            #[trigger] edges.drop_last()[k]).1 != e.1 by {
                assert(edges.drop_last()[k] == edges[k]);
            }
            lemma_edges_after_removal_no_child(edges.drop_last(), i, e.1);
        }
        assert forall|k: int| 0 <= k < r.len() implies {
            &&& 0 <= (#[trigger] r[k]).0
            &&& r[k].0 < r[k].1
            &&& r[k].1 < n - 1
        } by {
            if k < rest.len() {
                assert(r[k] == rest[k]);
            } else {
                assert(r[k] == se);
            }
        }
        assert forall|a: int, b: int| 0 <= a < b < r.len() implies (#[trigger] r[a]).1 != (
        #[trigger] r[b]).1 by {
            if b < rest.len() {
                assert(r[a] == rest[a] && r[b] == rest[b]);
            } else {
                assert(r[b] == se && r[a] == rest[a]);
            }
        }
    }
}

/// Every child index listed for a parent is a valid edge target.
proof fn lemma_children_of_bounds(edges: Seq<(int, int)>, p: int, n: int)
    requires
        forall|i: int|
            0 <= i < edges.len() ==> 0 <= (#[trigger] edges[i]).1 < n,
    ensures
        forall|k: int|
            0 <= k < children_of(edges, p).len() ==> 0 <= (#[trigger] children_of(edges, p)[k])
                < n,
    decreases edges.len(),
{
    if edges.len() > 0 {
        assert forall|i: int| 0 <= i < edges.drop_last().len() implies 0 <= (
        #[trigger] edges.drop_last()[i]).1 < n by {
            assert(edges.drop_last()[i] == edges[i]);
        }
        lemma_children_of_bounds(edges.drop_last(), p, n);
        let r = children_of(edges, p);
        let rest = children_of(edges.drop_last(), p);
        assert forall|k: int| 0 <= k < r.len() implies 0 <= #[trigger] r[k] < n by {
            if k < rest.len() {
                assert(r[k] == rest[k]);
            } else {
                assert(r[k] == edges[edges.len() - 1].1);
            }
        }
    }
}

/// Value equality of nodes, decided at the view level.
fn node_eq(a: &Node, b: &Node) -> (r: bool)
    ensures
        r == (a@ == b@),
{
    if a.row.0 != b.row.0 || a.row.1 != b.row.1 || a.col.0 != b.col.0 || a.col.1 != b.col.1 {
        return false;
    }
    node_type_eq(&a.node_type, &b.node_type)
}

/// Value equality of node kinds, decided at the view level.
fn node_type_eq(a: &NodeType, b: &NodeType) -> (r: bool)
    ensures
        r == (a@ == b@),
{
    match a {
        NodeType::Str(x) => match b {
            NodeType::Str(y) => x.eq(y),
            _ => false,
        },
        NodeType::Atom(x) => match b {
            NodeType::Atom(y) => x.eq(y),
            _ => false,
        },
        NodeType::Comment(x) => match b {
            NodeType::Comment(y) => x.eq(y),
            _ => false,
        },
        NodeType::Number(x) => match b {
            NodeType::Number(y) => *x == *y,
            _ => false,
        },
        NodeType::Boolean(x) => match b {
            NodeType::Boolean(y) => *x == *y,
            _ => false,
        },
        NodeType::Quote => matches!(b, NodeType::Quote),
        NodeType::Quasiquote => matches!(b, NodeType::Quasiquote),
        NodeType::Unquote => matches!(b, NodeType::Unquote),
        NodeType::UnquoteSplice => matches!(b, NodeType::UnquoteSplice),
        NodeType::Expr => matches!(b, NodeType::Expr),
        NodeType::CloseExpr => matches!(b, NodeType::CloseExpr),
    }
}

/// First index holding a node value-equal to `target`, if any.
fn position_of(nodes: &Vec<Node>, target: &Node) -> (r: Option<usize>)
    ensures
        match r {
            Some(u) => first_index_of(node_views(nodes@), target@) == Some(u as int),
            None => first_index_of(node_views(nodes@), target@) is None,
        },
{
    let ghost ns = node_views(nodes@);
    let mut k: usize = 0;
    while k < nodes.len()
        invariant
            0 <= k <= nodes.len(),
            ns == node_views(nodes@),
            ns.len() == nodes.len(),
            forall|j: int| 0 <= j < k ==> ns[j] != target@,
        decreases nodes.len() - k,
    {
        if node_eq(&nodes[k], target) {
            proof {
                lemma_first_index_of_from_prefix(ns, target@, k as int);
            }
            return Some(k);
        }
        k = k + 1;
    }
    proof {
        lemma_first_index_of_from_prefix(ns, target@, k as int);
    }
    None
}

impl AST {
    /// An empty graph: no nodes, no edges.
    pub fn new() -> (ast: AST)
        ensures
            ast@ == (AstView { nodes: Seq::<NodeView>::empty(), edges: Seq::<(int, int)>::empty() }),
            ast@.wf(),
    {
        let ast = AST { nodes: Vec::new(), edges: Vec::new() };
        proof {
            assert(node_views(Seq::<Node>::empty()) =~= Seq::<NodeView>::empty());
            assert(edge_views(Seq::<Edge>::empty()) =~= Seq::<(int, int)>::empty());
        }
        ast
    }

    /// Append a node with no incoming edge: a new root-eligible node.
    pub fn add_base_node(self, node: Node) -> (r: AST)
        ensures
            r@.nodes == self@.nodes.push(node@),
            r@.edges == self@.edges,
            self@.wf() ==> r@.wf(),
    {
        let ghost g0 = self@;
        let mut nodes = self.nodes;
        nodes.push(node);
        let r = AST { nodes, edges: self.edges };
        proof {
            assert(r@.nodes =~= g0.nodes.push(node@));
        }
        r
    }

    /// Append `child` and attach it under the node at `parent_index`.
    /// Fails exactly when `parent_index` is out of range.
    pub fn add_child_index(self, parent_index: usize, child: Node) -> (r: Result<AST, ASTError>)
        ensures
            (parent_index as int) < self@.nodes.len() ==> (r matches Ok(a) && {
                &&& a@.nodes == self@.nodes.push(child@)
                &&& a@.edges == self@.edges.push(
                    (parent_index as int, self@.nodes.len() as int),
                )
                &&& self@.wf() ==> a@.wf()
            }),
            (parent_index as int) >= self@.nodes.len() ==> (r matches Err(e)
                && e is UnableToFindParent),
    {
        let ghost g0 = self@;
        if parent_index < self.nodes.len() {
            let mut nodes = self.nodes;
            let mut edges = self.edges;
            let child_index = nodes.len();
            nodes.push(child);
            edges.push(Edge { parent: parent_index, child: child_index });
            let a = AST { nodes, edges };
            proof {
                assert(a@.nodes =~= g0.nodes.push(child@));
                assert(a@.edges =~= g0.edges.push((parent_index as int, g0.nodes.len() as int)));
                if g0.wf() {
                    let ge = a@.edges;
                    assert forall|i: int| 0 <= i < ge.len() implies {
                        &&& 0 <= (#[trigger] ge[i]).0
                        &&& ge[i].0 < ge[i].1
                        &&& ge[i].1 < a@.nodes.len()
                    } by {
                        if i < g0.edges.len() {
                            assert(ge[i] == g0.edges[i]);
                        }
                    }
                    assert forall|i: int, j: int| 0 <= i < j < ge.len() implies (
                    #[trigger] ge[i]).1 != (#[trigger] ge[j]).1 by {
                        if j < g0.edges.len() {
                        } else {
                            assert(ge[i].1 < g0.nodes.len() as int);
                        }
                    }
                }
            }
            Ok(a)
        } else {
            Err(ASTError::UnableToFindParent)
        }
    }

    /// Append `child` under the first node value-equal to `parent`.
    /// Fails exactly when no node equals `parent`.
    pub fn add_child(self, parent: &Node, child: Node) -> (r: Result<AST, ASTError>)
        ensures
            match first_index_of(self@.nodes, parent@) {
                Some(i) => r matches Ok(a) && {
                    &&& a@.nodes == self@.nodes.push(child@)
                    &&& a@.edges == self@.edges.push((i, self@.nodes.len() as int))
                    &&& self@.wf() ==> a@.wf()
                },
                None => r matches Err(e) && e is UnableToFindParent,
            },
    {
        match position_of(&self.nodes, parent) {
            Some(i) => {
                proof {
                    lemma_first_index_of_props(self@.nodes, parent@);
                }
                self.add_child_index(i, child)
            },
            None => Err(ASTError::UnableToFindParent),
        }
    }

    /// Child indices of the node at `node_index`, in edge-insertion
    /// order; empty when the index is out of range.
    pub fn get_children_index(&self, node_index: usize) -> (r: Vec<usize>)
        ensures
            r@.map_values(|u: usize| u as int) == (if (node_index as int) < self@.nodes.len() {
                children_of(self@.edges, node_index as int)
            } else {
                Seq::<int>::empty()
            }),
    {
        let mut result: Vec<usize> = Vec::new();
        if node_index >= self.nodes.len() {
            proof {
                assert(result@.map_values(|u: usize| u as int) =~= Seq::<int>::empty());
            }
            return result;
        }
        let ghost ge = self@.edges;
        let mut k: usize = 0;
        while k < self.edges.len()
            invariant
                0 <= k <= self.edges.len(),
                ge == self@.edges,
                ge.len() == self.edges.len(),
                result@.map_values(|u: usize| u as int) == children_of(
                    ge.take(k as int),
                    node_index as int,
                ),
            decreases self.edges.len() - k,
        {
            let ghost prev = result@;
            if self.edges[k].parent == node_index {
                let c = self.edges[k].child;
                result.push(c);
                proof {
                    assert(ge.take(k as int + 1).drop_last() =~= ge.take(k as int));
                    assert(ge.take(k as int + 1).last() == ge[k as int]);
                    assert(result@.map_values(|u: usize| u as int) =~= prev.map_values(
                        |u: usize| u as int,
                    ).push(c as int));
                }
            } else {
                proof {
                    assert(ge.take(k as int + 1).drop_last() =~= ge.take(k as int));
                    assert(ge.take(k as int + 1).last() == ge[k as int]);
                }
            }
            k = k + 1;
        }
        proof {
            assert(ge.take(self.edges.len() as int) =~= ge);
        }
        result
    }

    /// Child nodes of the first node value-equal to `node`, in
    /// edge-insertion order; empty when no node equals `node`.
    pub fn get_children<'a>(&'a self, node: &Node) -> (r: Vec<&'a Node>)
        requires
            self@.wf(),
        ensures
            match first_index_of(self@.nodes, node@) {
                Some(i) => r@.map_values(|n: &Node| n@) == children_of(self@.edges, i).map_values(
                    |c: int| self@.nodes[c],
                ),
                None => r@.len() == 0,
            },
    {
        let mut result: Vec<&Node> = Vec::new();
        let index = match position_of(&self.nodes, node) {
            Some(i) => i,
            None => {
                return result;
            },
        };
        proof {
            lemma_first_index_of_props(self@.nodes, node@);
        }
        let children = self.get_children_index(index);
        let ghost cs = children_of(self@.edges, index as int);
        proof {
            lemma_children_of_bounds(self@.edges, index as int, self@.nodes.len() as int);
            assert(children@.map_values(|u: usize| u as int) == cs);
        }
        let mut k: usize = 0;
        while k < children.len()
            invariant
                0 <= k <= children.len(),
                cs == children_of(self@.edges, index as int),
                children@.map_values(|u: usize| u as int) == cs,
                cs.len() == children@.len(),
                forall|j: int| 0 <= j < cs.len() ==> 0 <= #[trigger] cs[j] < self@.nodes.len(),
                self@.nodes.len() == self.nodes.len(),
                result@.len() == k,
                forall|j: int| 0 <= j < k ==> (#[trigger] result@[j])@ == self@.nodes[cs[j]],
            decreases children.len() - k,
        {
            let ci = children[k];
            proof {
                assert(children@.map_values(|u: usize| u as int)[k as int] == ci as int);
            }
            result.push(&self.nodes[ci]);
            k = k + 1;
        }
        proof {
            assert(result@.map_values(|n: &Node| n@) =~= cs.map_values(|c: int| self@.nodes[c]));
        }
        result
    }

    /// The parent index of the node at `node_index`, if an incoming edge
    /// exists; `None` for roots and out-of-range indices.
    pub fn get_parent_index(&self, node_index: usize) -> (r: Option<usize>)
        ensures
            (node_index as int) < self@.nodes.len() ==> (match first_parent(
                self@.edges,
                node_index as int,
            ) {
                Some(p) => r matches Some(u) && u as int == p,
                None => r is None,
            }),
            (node_index as int) >= self@.nodes.len() ==> r is None,
    {
        if node_index >= self.nodes.len() {
            return None;
        }
        let ghost ge = self@.edges;
        proof {
            assert(ge.skip(0) =~= ge);
        }
        let mut k: usize = 0;
        while k < self.edges.len()
            invariant
                0 <= k <= self.edges.len(),
                ge == self@.edges,
                ge.len() == self.edges.len(),
                (node_index as int) < self@.nodes.len(),
                first_parent(ge, node_index as int) == first_parent(
                    ge.skip(k as int),
                    node_index as int,
                ),
            decreases self.edges.len() - k,
        {
            proof {
                assert(ge.skip(k as int).first() == ge[k as int]);
                assert(ge.skip(k as int).drop_first() =~= ge.skip(k as int + 1));
            }
            if self.edges[k].child == node_index {
                return Some(self.edges[k].parent);
            }
            k = k + 1;
        }
        None
    }

    /// The parent node of the first node value-equal to `node`, if any.
    pub fn get_parent<'a>(&'a self, node: &Node) -> (r: Option<&'a Node>)
        ensures
            match first_index_of(self@.nodes, node@) {
                Some(i) => (match first_parent(self@.edges, i) {
                    Some(p) => if 0 <= p < self@.nodes.len() {
                        r matches Some(pn) && pn@ == self@.nodes[p]
                    } else {
                        r is None
                    },
                    None => r is None,
                }),
                None => r is None,
            },
    {
        let index = match position_of(&self.nodes, node) {
            Some(i) => i,
            None => {
                return None;
            },
        };
        proof {
            lemma_first_index_of_props(self@.nodes, node@);
        }
        match self.get_parent_index(index) {
            Some(p) => {
                if p < self.nodes.len() {
                    Some(&self.nodes[p])
                } else {
                    None
                }
            },
            None => None,
        }
    }

    /// Drop every edge touching the node at `node_index`, leaving the
    /// node itself in place as an orphan.
    pub fn deparent_index(self, node_index: usize) -> (r: AST)
        ensures
            (node_index as int) < self@.nodes.len() ==> {
                &&& r@.nodes == self@.nodes
                &&& r@.edges == edges_without(self@.edges, node_index as int)
                &&& self@.wf() ==> r@.wf()
            },
            (node_index as int) >= self@.nodes.len() ==> r@ == self@,
    {
        let ghost g0 = self@;
        if node_index >= self.nodes.len() {
            return self;
        }
        let mut edges: Vec<Edge> = Vec::new();
        let mut k: usize = 0;
        while k < self.edges.len()
            invariant
                0 <= k <= self.edges.len(),
                g0.edges == edge_views(self.edges@),
                g0.edges.len() == self.edges.len(),
                edge_views(edges@) == edges_without(g0.edges.take(k as int), node_index as int),
            decreases self.edges.len() - k,
        {
            let ghost prev = edges@;
            proof {
                assert(g0.edges.take(k as int + 1).drop_last() =~= g0.edges.take(k as int));
                assert(g0.edges.take(k as int + 1).last() == g0.edges[k as int]);
            }
            if self.edges[k].parent != node_index && self.edges[k].child != node_index {
                let e = Edge { parent: self.edges[k].parent, child: self.edges[k].child };
                edges.push(e);
                proof {
                    assert(edge_views(edges@) =~= edge_views(prev).push(e@));
                }
            }
            k = k + 1;
        }
        proof {
            assert(g0.edges.take(self.edges.len() as int) =~= g0.edges);
            if g0.wf() {
                lemma_edges_without_wf(g0.edges, node_index as int, g0.nodes.len() as int);
            }
        }
        AST { nodes: self.nodes, edges }
    }

    /// Drop every edge touching the first node value-equal to `node`.
    pub fn deparent(self, node: &Node) -> (r: AST)
        ensures
            match first_index_of(self@.nodes, node@) {
                Some(i) => {
                    &&& r@.nodes == self@.nodes
                    &&& r@.edges == edges_without(self@.edges, i)
                    &&& self@.wf() ==> r@.wf()
                },
                None => r@ == self@,
            },
    {
        match position_of(&self.nodes, node) {
            Some(i) => {
                proof {
                    lemma_first_index_of_props(self@.nodes, node@);
                }
                self.deparent_index(i)
            },
            None => self,
        }
    }

    /// Remove the node at `node_index`: drop edges touching it and
    /// renumber every index past it down by one, in nodes and edges
    /// alike, preserving index contiguity.
    pub fn remove_node_index(self, node_index: usize) -> (r: AST)
        ensures
            (node_index as int) < self@.nodes.len() ==> {
                &&& r@.nodes == self@.nodes.remove(node_index as int)
                &&& r@.edges == edges_after_removal(self@.edges, node_index as int)
                &&& self@.wf() ==> r@.wf()
            },
            (node_index as int) >= self@.nodes.len() ==> r@ == self@,
    {
        let ghost g0 = self@;
        if node_index >= self.nodes.len() {
            return self;
        }
        let mut edges: Vec<Edge> = Vec::new();
        let mut k: usize = 0;
        while k < self.edges.len()
            invariant
                0 <= k <= self.edges.len(),
                g0.edges == edge_views(self.edges@),
                g0.edges.len() == self.edges.len(),
                edge_views(edges@) == edges_after_removal(
                    g0.edges.take(k as int),
                    node_index as int,
                ),
            decreases self.edges.len() - k,
        {
            let ghost prev = edges@;
            proof {
                assert(g0.edges.take(k as int + 1).drop_last() =~= g0.edges.take(k as int));
                assert(g0.edges.take(k as int + 1).last() == g0.edges[k as int]);
            }
            let p = self.edges[k].parent;
            let c = self.edges[k].child;
            if p != node_index && c != node_index {
                let e = Edge {
                    parent: if p > node_index {
                        p - 1
                    } else {
                        p
                    },
                    child: if c > node_index {
                        c - 1
                    } else {
                        c
                    },
                };
                edges.push(e);
                proof {
                    assert(edge_views(edges@) =~= edge_views(prev).push(e@));
                }
            }
            k = k + 1;
        }
        let mut nodes = self.nodes;
        nodes.remove(node_index);
        proof {
            assert(g0.edges.take(g0.edges.len() as int) =~= g0.edges);
            assert(node_views(nodes@) =~= g0.nodes.remove(node_index as int));
            if g0.wf() {
                lemma_edges_after_removal_wf(g0.edges, node_index as int, g0.nodes.len() as int);
            }
        }
        AST { nodes, edges }
    }

    /// Remove the first node value-equal to `node`, as
    /// [`AST::remove_node_index`] does; unchanged when no node matches.
    pub fn remove_node(self, node: &Node) -> (r: AST)
        ensures
            match first_index_of(self@.nodes, node@) {
                Some(i) => {
                    &&& r@.nodes == self@.nodes.remove(i)
                    &&& r@.edges == edges_after_removal(self@.edges, i)
                    &&& self@.wf() ==> r@.wf()
                },
                None => r@ == self@,
            },
    {
        match position_of(&self.nodes, node) {
            Some(i) => {
                proof {
                    lemma_first_index_of_props(self@.nodes, node@);
                }
                self.remove_node_index(i)
            },
            None => self,
        }
    }

    /// Indices of all root nodes: nodes with no incoming edge. These are
    /// the entry points for downstream consumers of the graph.
    pub fn get_base_node_indexes(&self) -> (r: Vec<usize>)
        ensures
            r@.map_values(|u: usize| u as int) == roots_upto(self@, self@.nodes.len() as int),
    {
        let mut result: Vec<usize> = Vec::new();
        let mut i: usize = 0;
        proof {
            assert(result@.map_values(|u: usize| u as int) =~= roots_upto(self@, 0));
        }
        while i < self.nodes.len()
            invariant
                0 <= i <= self.nodes.len(),
                self@.nodes.len() == self.nodes.len(),
                result@.map_values(|u: usize| u as int) == roots_upto(self@, i as int),
            decreases self.nodes.len() - i,
        {
            let ghost prev = result@;
            match self.get_parent_index(i) {
                None => {
                    result.push(i);
                    proof {
                        assert(result@.map_values(|u: usize| u as int) =~= prev.map_values(
                            |u: usize| u as int,
                        ).push(i as int));
                        assert(roots_upto(self@, i as int + 1) =~= roots_upto(self@, i as int).push(
                            i as int,
                        ));
                    }
                },
                Some(_) => {
                    proof {
                        assert(roots_upto(self@, i as int + 1) =~= roots_upto(self@, i as int));
                    }
                },
            }
            i = i + 1;
        }
        result
    }
}

/// Conversion from a token kind to a node kind: whitespace and
/// end-of-input tokens convert to nothing, `At` folds into the atom `@`,
/// the boolean tokens fold into `Boolean`, and everything else maps one
/// to one.
pub open spec fn node_of_lex(k: LexKind) -> Option<NodeKind> {
    match k {
        LexKind::Atom(s) => Some(NodeKind::Atom(s)),
        LexKind::Number(n) => Some(NodeKind::Number(n)),
        LexKind::Str(s) => Some(NodeKind::Str(s)),
        LexKind::Comment(s) => Some(NodeKind::Comment(s)),
        LexKind::True(_) => Some(NodeKind::Boolean(true)),
        LexKind::False(_) => Some(NodeKind::Boolean(false)),
        LexKind::UnquoteSplice => Some(NodeKind::UnquoteSplice),
        LexKind::Comma => Some(NodeKind::Unquote),
        LexKind::Backquote => Some(NodeKind::Quasiquote),
        LexKind::SingleQuote => Some(NodeKind::Quote),
        LexKind::At => Some(NodeKind::Atom(seq!['@'])),
        LexKind::LeftParen => Some(NodeKind::Expr),
        LexKind::RightParen => Some(NodeKind::CloseExpr),
        LexKind::Whitespace(_) => None,
        LexKind::Newline => None,
        LexKind::Tab => None,
        LexKind::EOF => None,
    }
}

/// The node a token turns into, if any: same span, converted kind.
pub open spec fn node_view_of_token(t: TokenView) -> Option<NodeView> {
    match node_of_lex(t.kind) {
        Some(k) => Some(NodeView { row: t.row, col: t.col, kind: k }),
        None => None,
    }
}

impl Node {
    /// Convert a token to a tree node; see [`node_view_of_token`].
    pub fn from_token(token: Token) -> (r: Option<Node>)
        ensures
            match r {
                Some(n) => node_view_of_token(token@) == Some(n@),
                None => node_view_of_token(token@) is None,
            },
    {
        let ghost tv = token@;
        let (row, col, token_type) = token.into_raw_parts();
        let node_type = match token_type {
            TokenType::Atom(v) => Some(NodeType::Atom(v)),
            TokenType::Number(v) => Some(NodeType::Number(v)),
            TokenType::Str(v) => Some(NodeType::Str(v)),
            TokenType::Comment(v) => Some(NodeType::Comment(v)),
            TokenType::True(_) => Some(NodeType::Boolean(true)),
            TokenType::False(_) => Some(NodeType::Boolean(false)),
            TokenType::UnquoteSplice => Some(NodeType::UnquoteSplice),
            TokenType::Comma => Some(NodeType::Unquote),
            TokenType::Backquote => Some(NodeType::Quasiquote),
            TokenType::SingleQuote => Some(NodeType::Quote),
            TokenType::At => {
                let s = String::from_str("@");
                proof {
                    reveal_strlit("@");
                    assert(s@ =~= seq!['@']);
                }
                Some(NodeType::Atom(s))
            },
            TokenType::LeftParen => Some(NodeType::Expr),
            TokenType::RightParen => Some(NodeType::CloseExpr),
            TokenType::Whitespace(_) => None,
            TokenType::Newline => None,
            TokenType::Tab => None,
            TokenType::EOF => None,
        };
        match node_type {
            Some(nt) => Some(Node { row, col, node_type: nt }),
            None => None,
        }
    }

    /// A node of the given kind with an all-zero span.
    pub fn new(node_type: NodeType) -> (n: Node)
        ensures
            n@ == (NodeView { row: (0nat, 0nat), col: (0nat, 0nat), kind: node_type@ }),
    {
        Node { row: (0, 0), col: (0, 0), node_type }
    }
}

} // verus!
