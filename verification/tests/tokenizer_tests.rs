use shape_grammar::tokenizer::{create_token, merge_token, tokenize, Token, Tokenizer};

fn ident(s: &str) -> Token {
    Token::Identifier(s.to_string())
}

fn number(s: &str) -> Token {
    Token::Number(s.to_string())
}

fn all_tokens(text: &str) -> Vec<Token> {
    let mut tok = Tokenizer::from_file(text);
    let mut out = Vec::new();
    while let Some(t) = tok.next_token() {
        out.push(t);
    }
    out
}

fn text_of(t: &Token) -> String {
    match t {
        Token::Identifier(s) | Token::Number(s) => s.clone(),
        Token::CurlyOpen => "{".to_string(),
        Token::CurlyClose => "}".to_string(),
        Token::MapsTo => "->".to_string(),
        Token::Comma => ",".to_string(),
        Token::BraceOpen => "(".to_string(),
        Token::BraceClose => ")".to_string(),
        Token::Minus => "-".to_string(),
        Token::Skip => String::new(),
        Token::Colon => ":".to_string(),
        Token::DoubleColon => "::".to_string(),
        Token::Dot => ".".to_string(),
        Token::Star => "*".to_string(),
    }
}

#[test]
fn next_token_reads_a_rule() {
    let toks = all_tokens("start -> scale(1, 2.5, -3) { a::b }");
    assert_eq!(
        toks,
        vec![
            ident("start"),
            Token::MapsTo,
            ident("scale"),
            Token::BraceOpen,
            number("1"),
            Token::Comma,
            number("2.5"),
            Token::Comma,
            number("-3"),
            Token::BraceClose,
            Token::CurlyOpen,
            ident("a"),
            Token::DoubleColon,
            ident("b"),
            Token::CurlyClose,
        ]
    );
}

#[test]
fn next_token_symbols_and_longest_match() {
    let toks = all_tokens("- : . * :: -> ,{}()x_1 9.9.9");
    assert_eq!(
        toks,
        vec![
            Token::Minus,
            Token::Colon,
            Token::Dot,
            Token::Star,
            Token::DoubleColon,
            Token::MapsTo,
            Token::Comma,
            Token::CurlyOpen,
            Token::CurlyClose,
            Token::BraceOpen,
            Token::BraceClose,
            ident("x_1"),
            number("9.9.9"),
        ]
    );
}

#[test]
fn next_token_at_end_and_on_white_space() {
    let mut tok = Tokenizer::from_file("  \n\t\r ");
    assert_eq!(tok.next_token(), None);
    assert_eq!(tok.next_token(), None);
    let mut tok = Tokenizer::from_file("");
    assert_eq!(tok.next_token(), None);
}

#[test]
fn next_token_keeps_the_following_character() {
    let mut tok = Tokenizer::from_file("ab{");
    assert_eq!(tok.next_token(), Some(ident("ab")));
    assert_eq!(tok.next_token(), Some(Token::CurlyOpen));
    assert_eq!(tok.next_token(), None);
}

#[test]
fn blocking_char_finds_unknown_characters() {
    let tok = Tokenizer::from_file("   $abc");
    assert_eq!(tok.blocking_char(), Some('$'));
    let tok = Tokenizer::from_file("  abc");
    assert_eq!(tok.blocking_char(), None);
    let mut tok = Tokenizer::from_file("a>");
    assert_eq!(tok.next_token(), Some(ident("a")));
    assert_eq!(tok.blocking_char(), Some('>'));
}

#[test]
fn tokenize_reports_the_first_unknown_character() {
    assert_eq!(tokenize("a -> b # c"), Err('#'));
    assert_eq!(tokenize("x>"), Err('>'));
    assert_eq!(tokenize("a->b"), Ok(vec![ident("a"), Token::MapsTo, ident("b")]));
}

#[test]
fn merge_token_cases() {
    assert_eq!(merge_token(ident("ab"), 'c'), (ident("abc"), true));
    assert_eq!(merge_token(ident("ab"), '9'), (ident("ab9"), true));
    assert_eq!(merge_token(ident("ab"), '-'), (ident("ab"), false));
    assert_eq!(merge_token(Token::Minus, '>'), (Token::MapsTo, true));
    assert_eq!(merge_token(Token::Minus, '7'), (number("-7"), true));
    assert_eq!(merge_token(Token::Minus, 'x'), (Token::Minus, false));
    assert_eq!(merge_token(number("1"), '.'), (number("1."), true));
    assert_eq!(merge_token(number("1"), 'x'), (number("1"), false));
    assert_eq!(merge_token(Token::Colon, ':'), (Token::DoubleColon, true));
    assert_eq!(merge_token(Token::Colon, 'a'), (Token::Colon, false));
    assert_eq!(merge_token(Token::Comma, ','), (Token::Comma, false));
}

#[test]
fn create_token_cases() {
    assert_eq!(create_token('q'), Some(ident("q")));
    assert_eq!(create_token('_'), Some(ident("_")));
    assert_eq!(create_token('4'), Some(number("4")));
    assert_eq!(create_token('{'), Some(Token::CurlyOpen));
    assert_eq!(create_token('}'), Some(Token::CurlyClose));
    assert_eq!(create_token('-'), Some(Token::Minus));
    assert_eq!(create_token(','), Some(Token::Comma));
    assert_eq!(create_token('('), Some(Token::BraceOpen));
    assert_eq!(create_token(')'), Some(Token::BraceClose));
    assert_eq!(create_token(':'), Some(Token::Colon));
    assert_eq!(create_token('.'), Some(Token::Dot));
    assert_eq!(create_token('*'), Some(Token::Star));
    assert_eq!(create_token(' '), Some(Token::Skip));
    assert_eq!(create_token('\n'), Some(Token::Skip));
}

#[test]
fn tokens_cover_text_example() {
    let text = " a1 -> split(x , 0.5)\n{ b  ::c }  ";
    let toks = tokenize(text).unwrap();
    let joined: String = toks.iter().map(text_of).collect();
    let stripped: String = text.chars().filter(|c| !matches!(c, ' ' | '\n' | '\r' | '\t')).collect();
    assert_eq!(joined, stripped);
    assert!(toks.iter().all(|t| *t != Token::Skip && !text_of(t).is_empty()));
}

#[test]
fn retokenize_spaced_example() {
    let text = "a->draw(1,-2,3.5){::x::y}";
    let toks = tokenize(text).unwrap();
    let spaced: String = toks.iter().map(|t| text_of(t) + " ").collect();
    assert_eq!(tokenize(&spaced).unwrap(), toks);
}

#[test]
fn known_text_tokenizes() {
    assert!(tokenize("x -> y --> z : ::a.b* (1,-2)").is_ok());
    assert!(tokenize("x ->> y").is_err());
    let t = ident("t");
    assert_eq!(t.clone(), t);
}
