//! The tree builder: drives a stack of open expressions over the node
//! stream and attaches each node to its enclosing expression.

pub mod ast;

use vstd::prelude::*;
use vstd::pervasive::unreached;

use crate::lexer::tokens::{token_views, Token, TokenView};
use self::ast::{node_view_of_token, AstView, Node, NodeView, AST};

verus! {

/// The node stream a token stream converts to: tokens that convert to
/// nothing are dropped, the rest keep their order.
pub open spec fn nodes_of_tokens(ts: Seq<TokenView>) -> Seq<NodeView>
    decreases ts.len(),
{
    if ts.len() == 0 {
        Seq::empty()
    } else {
        match node_view_of_token(ts.first()) {
            Some(n) => seq![n] + nodes_of_tokens(ts.drop_first()),
            None => nodes_of_tokens(ts.drop_first()),
        }
    }
}

/// One run of the tree builder's stack machine over the remaining node
/// stream `ns`, starting from graph `g` with the open-expression stack
/// `stack` (each entry a node index, innermost scope last):
/// - an `Expr` node is appended (as a child of the innermost open scope,
///   or as a root if none is open) and becomes the new innermost scope;
/// - a `CloseExpr` node closes the innermost scope, and is dropped
///   silently when no scope is open;
/// - every other node is appended as a child of the innermost open
///   scope, or as a root if none is open.
pub open spec fn parse_rest(ns: Seq<NodeView>, g: AstView, stack: Seq<int>) -> AstView
    decreases ns.len(),
{
    if ns.len() == 0 {
        g
    } else {
        let n = ns.first();
        let rest = ns.drop_first();
        if n.kind is Expr {
            if stack.len() == 0 {
                parse_rest(
                    rest,
                    AstView { nodes: g.nodes.push(n), edges: g.edges },
                    stack.push(g.nodes.len() as int),
                )
            } else {
                parse_rest(
                    rest,
                    AstView {
                        nodes: g.nodes.push(n),
                        edges: g.edges.push((stack.last(), g.nodes.len() as int)),
                    },
                    stack.push(g.nodes.len() as int),
                )
            }
        } else if n.kind is CloseExpr {
            parse_rest(
                rest,
                g,
                if stack.len() == 0 {
                    stack
                } else {
                    stack.drop_last()
                },
            )
        } else {
            if stack.len() == 0 {
                parse_rest(rest, AstView { nodes: g.nodes.push(n), edges: g.edges }, stack)
            } else {
                parse_rest(
                    rest,
                    AstView {
                        nodes: g.nodes.push(n),
                        edges: g.edges.push((stack.last(), g.nodes.len() as int)),
                    },
                    stack,
                )
            }
        }
    }
}

/// The graph the whole token stream parses to.
pub open spec fn parse_spec(ts: Seq<TokenView>) -> AstView {
    parse_rest(
        nodes_of_tokens(ts),
        AstView { nodes: Seq::empty(), edges: Seq::empty() },
        Seq::empty(),
    )
}

/// Build the parse-tree graph for a token stream. The result is exactly
/// the graph [`parse_spec`] describes, and it is a well-formed forest.
pub fn parse_tokens(tokens: Vec<Token>) -> (result: AST)
    ensures
        result@ == parse_spec(token_views(tokens@)),
        result@.wf(),
{
    let ghost all_nodes = nodes_of_tokens(token_views(tokens@));
    let mut toks = tokens;
    let mut nodes: Vec<Node> = Vec::new();
    while toks.len() > 0
        invariant
            ast::node_views(nodes@) + nodes_of_tokens(token_views(toks@)) == all_nodes,
        decreases toks.len(),
    {
        let ghost before = token_views(toks@);
        let ghost nodes_before = ast::node_views(nodes@);
        let t = toks.remove(0);
        proof {
            assert(before.first() == t@);
            assert(token_views(toks@) =~= before.drop_first());
        }
        match Node::from_token(t) {
            Some(n) => {
                nodes.push(n);
                proof {
                    assert(ast::node_views(nodes@) =~= nodes_before.push(n@));
                    assert(nodes_before.push(n@) + nodes_of_tokens(before.drop_first())
                        =~= nodes_before + (seq![n@] + nodes_of_tokens(before.drop_first())));
                }
            },
            None => {},
        }
    }
    proof {
        assert(nodes_of_tokens(token_views(toks@)) =~= Seq::<NodeView>::empty());
        assert(ast::node_views(nodes@) + Seq::<NodeView>::empty() =~= ast::node_views(nodes@));
    }

    let ghost target = parse_rest(
        all_nodes,
        AstView { nodes: Seq::empty(), edges: Seq::empty() },
        Seq::empty(),
    );
    let mut result = AST::new();
    let mut root_stack: Vec<usize> = Vec::new();
    proof {
        assert(root_stack@.map_values(|u: usize| u as int) =~= Seq::<int>::empty());
    }
    while nodes.len() > 0
        invariant
            parse_rest(
                ast::node_views(nodes@),
                result@,
                root_stack@.map_values(|u: usize| u as int),
            ) == target,
            result@.wf(),
            forall|k: int|
                0 <= k < root_stack@.len() ==> (#[trigger] root_stack@[k] as int)
                    < result@.nodes.len(),
        decreases nodes.len(),
    {
        let ghost ns_before = ast::node_views(nodes@);
        let ghost g_before = result@;
        let ghost stack_before = root_stack@.map_values(|u: usize| u as int);
        let node = nodes.remove(0);
        proof {
            assert(ns_before.first() == node@);
            assert(ast::node_views(nodes@) =~= ns_before.drop_first());
        }
        let is_expr = matches!(node.node_type, ast::NodeType::Expr);
        let is_close = matches!(node.node_type, ast::NodeType::CloseExpr);
        if is_expr {
            let new_index = result.nodes.len();
            if root_stack.len() > 0 {
                let p = root_stack[root_stack.len() - 1];
                proof {
                    assert(stack_before.last() == p as int);
                }
                result = match result.add_child_index(p, node) {
                    Ok(a) => a,
                    Err(_) => unreached(),
                };
            } else {
                result = result.add_base_node(node);
            }
            root_stack.push(new_index);
            proof {
                assert(root_stack@.map_values(|u: usize| u as int) =~= stack_before.push(
                    new_index as int,
                ));
            }
        } else if is_close {
            if root_stack.len() > 0 {
                root_stack.pop();
                proof {
                    assert(root_stack@.map_values(|u: usize| u as int)
                        =~= stack_before.drop_last());
                }
            }
        } else {
            if root_stack.len() > 0 {
                let p = root_stack[root_stack.len() - 1];
                proof {
                    assert(stack_before.last() == p as int);
                }
                result = match result.add_child_index(p, node) {
                    Ok(a) => a,
                    Err(_) => unreached(),
                };
            } else {
                result = result.add_base_node(node);
            }
        }
    }
    proof {
        assert(ast::node_views(nodes@) =~= Seq::<NodeView>::empty());
    }
    result
}

} // verus!
