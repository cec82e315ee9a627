use bf_interpreter::{lex, Token};

#[test]
fn lex_reads_all_eight_symbols() {
    let tokens = lex(&"+-<>,.[]".to_string());
    assert_eq!(
        tokens,
        vec![
            Token::Increment,
            Token::Decrement,
            Token::ShiftLeft,
            Token::ShiftRight,
            Token::Input,
            Token::Output,
            Token::BeginLoop,
            Token::EndLoop,
        ]
    );
}

#[test]
fn lex_drops_every_other_character() {
    let tokens = lex(&"add one: + then take one: - (done) \u{e9}\n".to_string());
    assert_eq!(tokens, vec![Token::Increment, Token::Decrement]);
}

#[test]
fn lex_keeps_the_order_of_the_text() {
    let tokens = lex(&">a>b<c+".to_string());
    assert_eq!(
        tokens,
        vec![Token::ShiftRight, Token::ShiftRight, Token::ShiftLeft, Token::Increment]
    );
}

#[test]
fn lex_of_an_empty_text_is_empty() {
    assert_eq!(lex(&String::new()), Vec::<Token>::new());
    assert_eq!(lex(&"no symbols here".to_string()), Vec::<Token>::new());
}

#[test]
fn from_char_knows_the_symbols_only() {
    assert_eq!(Token::from_char('+'), Some(Token::Increment));
    assert_eq!(Token::from_char(']'), Some(Token::EndLoop));
    assert_eq!(Token::from_char('x'), None);
    assert_eq!(Token::from_char(' '), None);
}
