use shisp::errors::{ShispError, ShispErrorType};
use shisp::lexer::scan_string;
use shisp::lexer::tokens::{Token, TokenType};
use shisp::parser::ast::{ASTError, Edge, Node, NodeType, AST};
use shisp::parser::parse_tokens;

fn kinds_of(tokens: Vec<Token>) -> Vec<TokenType> {
    tokens.into_iter().map(|t| t.into_raw_parts().2).collect()
}

fn spans_of(tokens: Vec<Token>) -> Vec<(usize, usize)> {
    tokens.into_iter().map(|t| t.into_raw_parts().1).collect()
}

#[test]
fn scenario_single_expression() {
    let ast = parse_tokens(scan_string("(for the win)".to_string()));
    assert_eq!(ast.get_base_node_indexes(), vec![0]);
    assert_eq!(ast.nodes[0].node_type, NodeType::Expr);
    assert_eq!(ast.get_children_index(0), vec![1, 2, 3]);
    assert_eq!(ast.nodes[1].node_type, NodeType::Atom("for".to_string()));
    assert_eq!(ast.nodes[2].node_type, NodeType::Atom("the".to_string()));
    assert_eq!(ast.nodes[3].node_type, NodeType::Atom("win".to_string()));
}

#[test]
fn scenario_three_roots() {
    let ast = parse_tokens(scan_string("(for the win);a\n(shisp)".to_string()));
    assert_eq!(ast.get_base_node_indexes(), vec![0, 4, 5]);
    assert_eq!(ast.get_children_index(0), vec![1, 2, 3]);
    assert_eq!(ast.nodes[4].node_type, NodeType::Comment(";a".to_string()));
    assert_eq!(ast.get_children_index(4), vec![]);
    assert_eq!(ast.nodes[5].node_type, NodeType::Expr);
    assert_eq!(ast.get_children_index(5), vec![6]);
    assert_eq!(ast.nodes[6].node_type, NodeType::Atom("shisp".to_string()));
}

#[test]
fn scenario_unquote_splice() {
    let kinds = kinds_of(scan_string(",@(a b c)".to_string()));
    assert_eq!(
        kinds,
        vec![
            TokenType::UnquoteSplice,
            TokenType::LeftParen,
            TokenType::Atom("a".to_string()),
            TokenType::Atom("b".to_string()),
            TokenType::Atom("c".to_string()),
            TokenType::RightParen,
        ]
    );
}

#[test]
fn scenario_string_literal() {
    let tokens = scan_string("\"test\"".to_string());
    assert_eq!(tokens.len(), 1);
    let mut tokens = tokens;
    let (row, col, kind) = tokens.remove(0).into_raw_parts();
    assert_eq!(row, (0, 0));
    assert_eq!(col, (0, 5));
    assert_eq!(kind, TokenType::Str("\"test\"".to_string()));
}

#[test]
fn scenario_comment() {
    let tokens = scan_string(";comment".to_string());
    assert_eq!(kinds_of(tokens), vec![TokenType::Comment(";comment".to_string())]);

    let ast = parse_tokens(scan_string(";comment".to_string()));
    assert_eq!(ast.get_base_node_indexes(), vec![0]);
    assert_eq!(ast.nodes[0].node_type, NodeType::Comment(";comment".to_string()));
    assert_eq!(ast.get_children_index(0), vec![]);
}

#[test]
fn scenario_remove_parent_drops_edge() {
    let parent = Node { row: (0, 0), col: (0, 0), node_type: NodeType::Expr };
    let child = Node { row: (0, 0), col: (1, 1), node_type: NodeType::Atom("x".to_string()) };
    let ast = AST::new().add_base_node(parent).add_child_index(0, child).unwrap();
    assert_eq!(ast.nodes.len(), 2);
    assert_eq!(ast.edges, vec![Edge { parent: 0, child: 1 }]);

    let ast = ast.remove_node_index(0);
    assert_eq!(ast.nodes.len(), 1);
    assert_eq!(ast.edges, vec![]);
}

#[test]
fn span_tiling_no_gaps_no_overlaps() {
    let line = "(a@b \"q w\" ;end";
    let spans = spans_of(scan_string(line.to_string()));
    let chars: Vec<char> = line.chars().collect();
    // spans are strictly increasing and pairwise disjoint
    for w in spans.windows(2) {
        assert!(w[0].1 < w[1].0);
    }
    // every non-whitespace position is covered exactly once
    for (p, c) in chars.iter().enumerate() {
        let hits = spans.iter().filter(|s| s.0 <= p && p <= s.1).count();
        if !c.is_whitespace() {
            assert_eq!(hits, 1, "position {} not tiled", p);
        } else {
            assert!(hits <= 1);
        }
    }
}

#[test]
fn spans_rederive_lexemes() {
    let line = ",@(num 123 \"s\") ;done";
    let chars: Vec<char> = line.chars().collect();
    for token in scan_string(line.to_string()) {
        let (_, (c0, c1), kind) = token.into_raw_parts();
        let lexeme: String = chars[c0..=c1].iter().collect();
        let (_, _, rekind) = Token::new((0, 0), (0, 0), lexeme).into_raw_parts();
        assert_eq!(kind, rekind);
    }
}

#[test]
fn classifier_reaches_every_kind() {
    let cases = vec![
        ("(", TokenType::LeftParen),
        (")", TokenType::RightParen),
        (",@", TokenType::UnquoteSplice),
        (",", TokenType::Comma),
        ("@", TokenType::At),
        ("`", TokenType::Backquote),
        ("'", TokenType::SingleQuote),
        ("#t", TokenType::True(true)),
        ("#f", TokenType::False(false)),
        ("\n", TokenType::Newline),
        ("\t", TokenType::Tab),
        ("\"\"", TokenType::Str("\"\"".to_string())),
        ("7", TokenType::Number(7)),
        (";", TokenType::Comment(";".to_string())),
        (" ", TokenType::Whitespace(" ".to_string())),
        ("a", TokenType::Atom("a".to_string())),
    ];
    for (lexeme, expected) in cases {
        let (_, _, kind) = Token::new((0, 0), (0, 0), lexeme.to_string()).into_raw_parts();
        assert_eq!(kind, expected);
    }
}

#[test]
fn numbers_with_leading_zero() {
    let (_, _, kind) = Token::new((0, 0), (0, 3), "0123".to_string()).into_raw_parts();
    assert_eq!(kind, TokenType::Number(123));

    let (_, _, kind) = Token::new((0, 0), (0, 0), "0".to_string()).into_raw_parts();
    assert_eq!(kind, TokenType::Number(0));
}

#[test]
fn oversized_number_is_an_atom() {
    let digits = "9".repeat(40);
    let (_, _, kind) = Token::new((0, 0), (0, 39), digits.clone()).into_raw_parts();
    assert_eq!(kind, TokenType::Atom(digits));
}

#[test]
fn mixed_digit_atom_stays_atom() {
    let (_, _, kind) = Token::new((0, 0), (0, 1), "a1".to_string()).into_raw_parts();
    assert_eq!(kind, TokenType::Atom("a1".to_string()));
}

#[test]
fn comment_absorbs_spaces_to_end_of_line() {
    let tokens = scan_string("; a b".to_string());
    assert_eq!(kinds_of(tokens), vec![TokenType::Comment("; a b".to_string())]);
}

#[test]
fn unterminated_string_flushes_as_atom() {
    let tokens = scan_string("\"ab".to_string());
    assert_eq!(kinds_of(tokens), vec![TokenType::Atom("\"ab".to_string())]);
}

#[test]
fn quote_characters_stand_alone() {
    let kinds = kinds_of(scan_string("' `".to_string()));
    assert_eq!(kinds, vec![TokenType::SingleQuote, TokenType::Backquote]);
}

#[test]
fn empty_input_scans_and_parses_to_nothing() {
    let tokens = scan_string(String::new());
    assert!(tokens.is_empty());

    let ast = parse_tokens(Vec::new());
    assert_eq!(ast, AST { nodes: Vec::new(), edges: Vec::new() });
    assert_eq!(ast.get_base_node_indexes(), Vec::<usize>::new());
}

#[test]
fn add_child_index_out_of_range_fails() {
    let node = Node { row: (0, 0), col: (0, 0), node_type: NodeType::Expr };
    let result = AST::new().add_child_index(0, node);
    assert!(matches!(result, Err(ASTError::UnableToFindParent)));
}

#[test]
fn add_child_unknown_parent_fails() {
    let known = Node { row: (0, 0), col: (0, 0), node_type: NodeType::Expr };
    let unknown = Node { row: (5, 5), col: (5, 5), node_type: NodeType::Expr };
    let child = Node { row: (0, 0), col: (1, 1), node_type: NodeType::Atom("x".to_string()) };
    let result = AST::new().add_base_node(known).add_child(&unknown, child);
    assert!(matches!(result, Err(ASTError::UnableToFindParent)));
}

#[test]
fn parent_and_children_queries() {
    let root = Node { row: (0, 0), col: (0, 0), node_type: NodeType::Expr };
    let child = Node { row: (0, 0), col: (1, 1), node_type: NodeType::Atom("x".to_string()) };
    let ast = AST::new()
        .add_base_node(Node { row: (0, 0), col: (0, 0), node_type: NodeType::Expr })
        .add_child_index(
            0,
            Node { row: (0, 0), col: (1, 1), node_type: NodeType::Atom("x".to_string()) },
        )
        .unwrap();

    assert_eq!(ast.get_parent(&child), Some(&ast.nodes[0]));
    assert_eq!(ast.get_parent(&root), None);
    assert_eq!(ast.get_children(&root), vec![&ast.nodes[1]]);
    assert_eq!(ast.get_children(&child), Vec::<&Node>::new());
    assert_eq!(ast.get_parent_index(1), Some(0));
    assert_eq!(ast.get_parent_index(0), None);
}

#[test]
fn deparent_keeps_the_node() {
    let root = Node { row: (0, 0), col: (0, 0), node_type: NodeType::Expr };
    let child = Node { row: (0, 0), col: (1, 1), node_type: NodeType::Atom("x".to_string()) };
    let ast = AST::new().add_base_node(root).add_child_index(0, child).unwrap().deparent_index(1);

    assert_eq!(ast.nodes.len(), 2);
    assert_eq!(ast.edges, vec![]);
    assert_eq!(ast.get_base_node_indexes(), vec![0, 1]);
}

#[test]
fn deparent_by_node_value() {
    let root = Node { row: (0, 0), col: (0, 0), node_type: NodeType::Expr };
    let child = Node { row: (0, 0), col: (1, 1), node_type: NodeType::Atom("x".to_string()) };
    let lookup = Node { row: (0, 0), col: (1, 1), node_type: NodeType::Atom("x".to_string()) };
    let ast = AST::new().add_base_node(root).add_child_index(0, child).unwrap().deparent(&lookup);

    assert_eq!(ast.nodes.len(), 2);
    assert_eq!(ast.edges, vec![]);
}

#[test]
fn remove_shifts_later_edges() {
    // nodes: 0 (removed), 1 -> 2 an edge that must be renumbered to 0 -> 1
    let a = Node { row: (0, 0), col: (0, 0), node_type: NodeType::Expr };
    let b = Node { row: (1, 1), col: (0, 0), node_type: NodeType::Expr };
    let c = Node { row: (2, 2), col: (0, 0), node_type: NodeType::Atom("x".to_string()) };
    let ast = AST::new()
        .add_base_node(a)
        .add_base_node(b)
        .add_child_index(1, c)
        .unwrap()
        .remove_node_index(0);

    assert_eq!(ast.nodes.len(), 2);
    assert_eq!(ast.edges, vec![Edge { parent: 0, child: 1 }]);
}

#[test]
fn error_signal_carries_its_kind() {
    let err = ShispError::new(ShispErrorType::EOF);
    assert!(format!("{:?}", err).contains("EOF"));
}
