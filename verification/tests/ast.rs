use shisp::lexer::tokens::Token;
use shisp::parser::ast::{Edge, Node, NodeType, AST};

fn make_node() -> Node {
    Node { row: (0, 0), col: (0, 0), node_type: NodeType::Expr }
}

#[test]
fn test_new() {
    assert_eq!(AST::new(), AST { nodes: Vec::new(), edges: Vec::new() })
}

#[test]
fn add_child_index() {
    let ast = AST::new().add_base_node(make_node()).add_child_index(0, make_node()).unwrap();
    assert_eq!(ast.nodes, vec![make_node(), make_node()]);
    assert_eq!(ast.edges, vec![Edge { parent: 0, child: 1 }]);
}

#[test]
fn remove_node_index() {
    let ast = AST::new().add_base_node(make_node()).remove_node_index(0);

    let ast_parent = AST::new()
        .add_base_node(make_node())
        .add_child_index(0, make_node())
        .unwrap()
        .remove_node_index(0);

    let ast_child = AST::new()
        .add_base_node(make_node())
        .add_child_index(0, make_node())
        .unwrap()
        .remove_node_index(1);

    assert_eq!(ast.nodes, vec![]);
    assert_eq!(ast.edges, vec![]);

    assert_eq!(ast_parent.nodes, vec![make_node()]);
    assert_eq!(ast_parent.edges, vec![]);

    assert_eq!(ast_child.nodes, vec![make_node()]);
    assert_eq!(ast_child.edges, vec![]);
}

#[test]
fn remove_node() {
    let ast = AST::new().add_base_node(make_node()).remove_node(&make_node());

    let ast_parent = AST::new()
        .add_base_node(make_node())
        .add_child_index(0, make_node())
        .unwrap()
        .remove_node(&make_node());

    assert_eq!(ast.nodes, vec![]);
    assert_eq!(ast.edges, vec![]);

    assert_eq!(ast_parent.nodes, vec![make_node()]);
    assert_eq!(ast_parent.edges, vec![]);
}

#[test]
fn add_child() {
    let ast = AST::new().add_base_node(make_node()).add_child(&make_node(), make_node()).unwrap();
    assert_eq!(ast.nodes, vec![make_node(), make_node()]);
    assert_eq!(ast.edges, vec![Edge { parent: 0, child: 1 }]);
}

#[test]
fn deparent_index() {
    let ast = AST::new()
        .add_base_node(make_node())
        .add_child_index(0, make_node())
        .unwrap()
        .deparent_index(1);

    assert_eq!(ast.edges, vec![]);
}

#[test]
fn test_add_base_node() {
    let node = Node { row: (0, 0), col: (0, 0), node_type: NodeType::Atom("a".to_string()) };

    let ast = AST::new().add_base_node(Node {
        row: (0, 0),
        col: (0, 0),
        node_type: NodeType::Atom("a".to_string()),
    });

    assert_eq!(ast.nodes[0], node);
}

#[test]
fn from_token() {
    let raw_tokens = [
        "\"AAA\"", "123", "@", ",@", ",", "`", "'", "(", ")", " ", "\t", "\n", "#t", "#f", ";test",
    ];
    let nodes = raw_tokens
        .map(|rs| Token::new((0, 0), (0, 0), rs.to_string()))
        .map(|t| Node::from_token(t));
    let proper_nodes = [
        Some(Node::new(NodeType::Str("\"AAA\"".to_string()))),
        Some(Node::new(NodeType::Number(123))),
        Some(Node::new(NodeType::Atom("@".to_string()))),
        Some(Node::new(NodeType::UnquoteSplice)),
        Some(Node::new(NodeType::Unquote)),
        Some(Node::new(NodeType::Quasiquote)),
        Some(Node::new(NodeType::Quote)),
        Some(Node::new(NodeType::Expr)),
        Some(Node::new(NodeType::CloseExpr)),
        None,
        None,
        None,
        Some(Node::new(NodeType::Boolean(true))),
        Some(Node::new(NodeType::Boolean(false))),
        Some(Node::new(NodeType::Comment(";test".to_string()))),
    ];

    let mut i = 0;
    for node in nodes {
        println!("{:?}", node);
        println!("{:?}", proper_nodes[i]);
        assert_eq!(node, proper_nodes[i]);
        i += 1;
    }
}
