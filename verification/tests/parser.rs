use std::collections::HashSet;

use shisp::lexer::scan_string;
use shisp::parser::parse_tokens as parse;

#[test]
fn parse_tokens() {
    let tokens = scan_string("(for the win)".to_string());
    let tokens_2 = scan_string("(for the win);a\n(shisp)".to_string());
    let ast = parse(tokens);
    let ast_2 = parse(tokens_2);

    assert_eq!(
        ast.get_base_node_indexes().into_iter().collect::<HashSet<usize>>(),
        vec![0].into_iter().collect::<HashSet<usize>>()
    );
    assert_eq!(ast.get_children_index(0), vec![1, 2, 3]);

    assert_eq!(
        ast_2.get_base_node_indexes().into_iter().collect::<HashSet<usize>>(),
        vec![0, 4, 5].into_iter().collect::<HashSet<usize>>()
    );
    assert_eq!(ast_2.get_children_index(0), vec![1, 2, 3]);
    assert_eq!(ast_2.get_children_index(4), vec![]);
    assert_eq!(ast_2.get_children_index(5), vec![6]);
}
