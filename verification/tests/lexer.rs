use brainfuck::token::Token;
use brainfuck::token::map_token;
use brainfuck::token::tokenize;

#[test]
fn maps_each_operator_character() {
    assert_eq!(map_token('+'), Some(Token::Increment));
    assert_eq!(map_token('-'), Some(Token::Decrement));
    assert_eq!(map_token('>'), Some(Token::MoveUp));
    assert_eq!(map_token('<'), Some(Token::MoveDown));
    assert_eq!(map_token('.'), Some(Token::Print));
    assert_eq!(map_token(','), Some(Token::Read));
    assert_eq!(map_token('['), Some(Token::LoopOpen));
    assert_eq!(map_token(']'), Some(Token::LoopClose));
}

#[test]
fn drops_unrecognized_characters() {
    assert_eq!(map_token('a'), None);
    assert_eq!(map_token(' '), None);
    assert_eq!(map_token('0'), None);
    assert_eq!(map_token('\n'), None);
    assert_eq!(map_token('!'), None);
}

#[test]
fn tokenize_keeps_operators_in_order() {
    let tokens = tokenize("a +b- [c>.] ,<\n");
    assert_eq!(
        tokens,
        vec![
            Token::Increment,
            Token::Decrement,
            Token::LoopOpen,
            Token::MoveUp,
            Token::Print,
            Token::LoopClose,
            Token::Read,
            Token::MoveDown,
        ]
    );
}

#[test]
fn tokenize_empty_source() {
    assert_eq!(tokenize(""), vec![]);
}

#[test]
fn tokenize_comment_only_source() {
    assert_eq!(tokenize("this text has no operators at all"), vec![]);
}
