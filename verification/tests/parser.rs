use bf_interpreter::{lex, parse, parse_tokens, unparse_tree, Error, SyntaxItem, Token};

fn leaf(token: Token) -> SyntaxItem {
    SyntaxItem::Single(token)
}

#[test]
fn parse_straight_line_code() {
    let tree = parse(&"+-.".to_string());
    assert_eq!(
        tree,
        Ok(vec![leaf(Token::Increment), leaf(Token::Decrement), leaf(Token::Output)])
    );
}

#[test]
fn parse_of_nothing_is_the_empty_program() {
    assert_eq!(parse(&String::new()), Ok(vec![]));
    assert_eq!(parse_tokens(&vec![]), Ok(vec![]));
}

#[test]
fn parse_builds_a_loop_node() {
    let tree = parse(&"+[-]>".to_string());
    assert_eq!(
        tree,
        Ok(vec![
            leaf(Token::Increment),
            SyntaxItem::Loop(vec![leaf(Token::Decrement)]),
            leaf(Token::ShiftRight),
        ])
    );
}

#[test]
fn parse_builds_nested_loops() {
    let tree = parse(&"[>[-[+]]<][]".to_string());
    assert_eq!(
        tree,
        Ok(vec![
            SyntaxItem::Loop(vec![
                leaf(Token::ShiftRight),
                SyntaxItem::Loop(vec![
                    leaf(Token::Decrement),
                    SyntaxItem::Loop(vec![leaf(Token::Increment)]),
                ]),
                leaf(Token::ShiftLeft),
            ]),
            SyntaxItem::Loop(vec![]),
        ])
    );
}

#[test]
fn parse_keeps_no_bracket_as_a_leaf() {
    fn check(items: &Vec<SyntaxItem>) {
        for item in items {
            match item {
                SyntaxItem::Single(token) => {
                    assert_ne!(*token, Token::BeginLoop);
                    assert_ne!(*token, Token::EndLoop);
                }
                SyntaxItem::Loop(body) => check(body),
            }
        }
    }
    let tree = parse(&"]+[>[.]],]".to_string()).expect("every loop is closed");
    check(&tree);
}

#[test]
fn parse_passes_over_a_stray_closing_bracket() {
    assert_eq!(parse(&"]".to_string()), Ok(vec![]));
    assert_eq!(
        parse(&"+]-".to_string()),
        Ok(vec![leaf(Token::Increment), leaf(Token::Decrement)])
    );
    assert_eq!(
        parse(&"[+]]>".to_string()),
        Ok(vec![SyntaxItem::Loop(vec![leaf(Token::Increment)]), leaf(Token::ShiftRight)])
    );
}

#[test]
fn parse_fails_on_an_unclosed_loop() {
    assert_eq!(parse(&"[".to_string()), Err(Error::MismatchedBrackets));
    assert_eq!(parse(&"+[-".to_string()), Err(Error::MismatchedBrackets));
    assert_eq!(parse(&"[[]".to_string()), Err(Error::MismatchedBrackets));
    assert_eq!(parse(&"[]][".to_string()), Err(Error::MismatchedBrackets));
    assert_eq!(parse_tokens(&vec![Token::BeginLoop]), Err(Error::MismatchedBrackets));
}

#[test]
fn parse_reads_through_comments() {
    let tree = parse(&"loop: [ body - ] end".to_string());
    assert_eq!(tree, Ok(vec![SyntaxItem::Loop(vec![leaf(Token::Decrement)])]));
}

#[test]
fn unparse_writes_loops_between_brackets() {
    let tree = vec![
        leaf(Token::Increment),
        SyntaxItem::Loop(vec![leaf(Token::Decrement), SyntaxItem::Loop(vec![])]),
        leaf(Token::Output),
    ];
    assert_eq!(unparse_tree(&tree), lex(&"+[-[]].".to_string()));
}

#[test]
fn parsing_again_what_was_parsed_gives_the_same_tree() {
    let text = "+++++[>+++++[>+<-]<-]>>.,[-]".to_string();
    let tree = parse(&text).expect("every loop is closed");
    let tokens = unparse_tree(&tree);
    assert_eq!(tokens, lex(&text));
    assert_eq!(parse_tokens(&tokens), Ok(tree));
}

#[test]
fn parsing_again_drops_stray_brackets_once() {
    let tree = parse(&"]+[-]]".to_string()).expect("every loop is closed");
    let tokens = unparse_tree(&tree);
    assert_eq!(tokens, lex(&"+[-]".to_string()));
    assert_eq!(parse_tokens(&tokens), Ok(tree));
}

#[test]
fn clone_copies_the_whole_tree() {
    let tree = parse(&"+[>[-]<]".to_string()).expect("every loop is closed");
    let copy = tree.clone();
    assert_eq!(copy, tree);
}

#[test]
fn error_messages_name_the_failure() {
    assert_eq!(
        Error::MismatchedBrackets.message(),
        "mismatched brackets: a loop is never closed"
    );
    assert_eq!(Error::InputParseError.message(), "could not parse input: the line is empty");
}
