use brainfuck::token::tokenize;
use brainfuck::parser::ParseElement;
use brainfuck::parser::ParseError;
use brainfuck::parser::parse_root;

#[test]
fn parses_simple_statements() {
    let tree = parse_root(tokenize("+-><.,")).unwrap();
    assert_eq!(
        tree,
        vec![
            ParseElement::Increment,
            ParseElement::Decrement,
            ParseElement::MoveUp,
            ParseElement::MoveDown,
            ParseElement::Print,
            ParseElement::Read,
        ]
    );
}

#[test]
fn parses_empty_block() {
    let tree = parse_root(tokenize("[]")).unwrap();
    assert_eq!(tree, vec![ParseElement::Block(vec![])]);
}

#[test]
fn parses_nested_blocks() {
    let tree = parse_root(tokenize("+[>[-]<]")).unwrap();
    assert_eq!(
        tree,
        vec![
            ParseElement::Increment,
            ParseElement::Block(vec![
                ParseElement::MoveUp,
                ParseElement::Block(vec![ParseElement::Decrement]),
                ParseElement::MoveDown,
            ]),
        ]
    );
}

#[test]
fn parses_sibling_blocks() {
    let tree = parse_root(tokenize("[][]")).unwrap();
    assert_eq!(
        tree,
        vec![ParseElement::Block(vec![]), ParseElement::Block(vec![])]
    );
}

#[test]
fn unmatched_close_is_rejected() {
    assert_eq!(parse_root(tokenize("+]")).unwrap_err(), ParseError::UnmatchedClose);
    assert_eq!(parse_root(tokenize("]")).unwrap_err(), ParseError::UnmatchedClose);
    assert_eq!(parse_root(tokenize("[]]")).unwrap_err(), ParseError::UnmatchedClose);
}

#[test]
fn unterminated_loop_is_rejected() {
    assert_eq!(parse_root(tokenize("[+")).unwrap_err(), ParseError::UnterminatedLoop);
    assert_eq!(parse_root(tokenize("[")).unwrap_err(), ParseError::UnterminatedLoop);
    assert_eq!(parse_root(tokenize("[[]")).unwrap_err(), ParseError::UnterminatedLoop);
}

#[test]
fn close_before_open_wins_over_missing_close() {
    // The first error met while scanning decides: here the stray close.
    assert_eq!(parse_root(tokenize("][")).unwrap_err(), ParseError::UnmatchedClose);
}
