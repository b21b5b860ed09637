use shisp::lexer::{is_special_char, kinda_special_char, scan_string};
use shisp::lexer::tokens::Token;

#[test]
fn test_scan_string() {
    let input = vec![
        ",@(a b c)".to_string(),
        ",(a b c)".to_string(),
        "(a@b c)".to_string(),
        "(a,b c)".to_string(),
        "\"test\"".to_string(),
        "1234".to_string(),
        "0123".to_string(),
        ";comment".to_string(),
        "123\n345".to_string(),
        ",123".to_string(),
        ",@123".to_string(),
    ];

    let output = [
        vec![
            Token::new((0, 0), (0, 1), ",@".to_string()),
            Token::new((0, 0), (2, 2), "(".to_string()),
            Token::new((0, 0), (3, 3), "a".to_string()),
            Token::new((0, 0), (5, 5), "b".to_string()),
            Token::new((0, 0), (7, 7), "c".to_string()),
            Token::new((0, 0), (8, 8), ")".to_string()),
        ],
        vec![
            Token::new((0, 0), (0, 0), ",".to_string()),
            Token::new((0, 0), (1, 1), "(".to_string()),
            Token::new((0, 0), (2, 2), "a".to_string()),
            Token::new((0, 0), (4, 4), "b".to_string()),
            Token::new((0, 0), (6, 6), "c".to_string()),
            Token::new((0, 0), (7, 7), ")".to_string()),
        ],
        vec![
            Token::new((0, 0), (0, 0), "(".to_string()),
            Token::new((0, 0), (1, 3), "a@b".to_string()),
            Token::new((0, 0), (5, 5), "c".to_string()),
            Token::new((0, 0), (6, 6), ")".to_string()),
        ],
        vec![
            Token::new((0, 0), (0, 0), "(".to_string()),
            Token::new((0, 0), (1, 1), "a".to_string()),
            Token::new((0, 0), (2, 2), ",".to_string()),
            Token::new((0, 0), (3, 3), "b".to_string()),
            Token::new((0, 0), (5, 5), "c".to_string()),
            Token::new((0, 0), (6, 6), ")".to_string()),
        ],
        vec![Token::new((0, 0), (0, 5), "\"test\"".to_string())],
        vec![Token::new((0, 0), (0, 3), "1234".to_string())],
        vec![Token::new((0, 0), (0, 3), "0123".to_string())],
        vec![Token::new((0, 0), (0, 7), ";comment".to_string())],
        vec![
            Token::new((0, 0), (0, 2), "123".to_string()),
            Token::new((1, 1), (0, 2), "345".to_string()),
        ],
        vec![
            Token::new((0, 0), (0, 0), ",".to_string()),
            Token::new((0, 0), (1, 3), "123".to_string()),
        ],
        vec![
            Token::new((0, 0), (0, 1), ",@".to_string()),
            Token::new((0, 0), (2, 4), "123".to_string()),
        ],
    ];

    for (index, string) in input.iter().enumerate() {
        println!("{}", string);
        assert_eq!(scan_string(string.clone()), output[index]);
    }
}

#[test]
fn test_is_special() {
    assert!(is_special_char("(", false));
    assert!(is_special_char("(", true));

    assert!(is_special_char(")", true));
    assert!(is_special_char(")", false));

    assert!(is_special_char(",", false));
    assert!(!is_special_char(",", true));

    assert!(is_special_char(",@", false));
    assert!(is_special_char(",@", true));

    assert!(!is_special_char("@", false));
    assert!(!is_special_char("@", true));

    assert!(!is_special_char(",a", false));
    assert!(!is_special_char(",a", true));
}

#[test]
fn test_is_kinda_special() {
    assert!(kinda_special_char('"'));
    assert!(kinda_special_char('"'));

    assert!(kinda_special_char(';'));
    assert!(kinda_special_char(';'));
}
