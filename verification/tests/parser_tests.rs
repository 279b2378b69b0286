use shape_grammar::grammar::{Grammar, Operation, Rule};
use shape_grammar::parser::{
    parse_identifier, parse_identifier_token, parse_number, parse_operation, parse_rule,
    parse_source, parse_symbol, parse_tokens, ParseError,
};
use shape_grammar::tokenizer::{tokenize, Token};

fn toks(text: &str) -> Vec<Token> {
    tokenize(text).unwrap()
}

fn s(x: &str) -> String {
    x.to_string()
}

fn ident(x: &str) -> Token {
    Token::Identifier(s(x))
}

#[test]
fn parse_symbol_cases() {
    let t = toks("( x");
    assert_eq!(parse_symbol(&t, Token::BraceOpen), Ok(&t[1..]));
    assert_eq!(
        parse_symbol(&t, Token::Comma),
        Err(ParseError::ExpectedSymbol { expected: Token::Comma, found: Token::BraceOpen })
    );
    assert_eq!(parse_symbol(&[], Token::Comma), Err(ParseError::UnexpectedEnd));
}

#[test]
fn parse_identifier_token_cases() {
    let t = toks("abc ,");
    let (n, rest) = parse_identifier_token(&t).unwrap();
    assert_eq!(n, "abc");
    assert_eq!(rest, &t[1..]);
    assert_eq!(
        parse_identifier_token(&t[1..]),
        Err(ParseError::ExpectedIdentifier { found: Token::Comma })
    );
    assert_eq!(parse_identifier_token(&[]), Err(ParseError::UnexpectedEnd));
}

#[test]
fn parse_number_cases() {
    let t = toks("-1.5 x");
    assert_eq!(parse_number(&t), Ok((s("-1.5"), &t[1..])));
    assert_eq!(parse_number(&t[1..]), Err(ParseError::ExpectedNumber { found: ident("x") }));
    assert_eq!(parse_number(&[]), Err(ParseError::UnexpectedEnd));
}

#[test]
fn parse_identifier_cases() {
    let t = toks("a::b::c {");
    assert_eq!(parse_identifier(&t), Ok((s("a::b::c"), &t[5..])));
    let t = toks("::root x");
    assert_eq!(parse_identifier(&t), Ok((s("::root"), &t[2..])));
    // the name must be followed by a token
    let t = toks("a::b");
    assert_eq!(parse_identifier(&t), Err(ParseError::UnexpectedEnd));
    let t = toks("a:: ,");
    assert_eq!(parse_identifier(&t), Err(ParseError::ExpectedIdentifier { found: Token::Comma }));
    let t = toks("{");
    assert_eq!(parse_identifier(&t), Err(ParseError::ExpectedIdentifier { found: Token::CurlyOpen }));
}

#[test]
fn parse_operation_cases() {
    let t = toks("scale(1, 2, 3) {");
    assert_eq!(
        parse_operation(&t),
        Ok((Operation::Scale { x: s("1"), y: s("2"), z: s("3") }, &t[8..]))
    );
    let t = toks("transpose(0, -1, 0.5)");
    assert_eq!(
        parse_operation(&t),
        Ok((Operation::Transpose { x: s("0"), y: s("-1"), z: s("0.5") }, &t[8..]))
    );
    let t = toks("draw(1, 0, 0)");
    assert_eq!(
        parse_operation(&t),
        Ok((Operation::Draw { r: s("1"), g: s("0"), b: s("0") }, &t[8..]))
    );
    let t = toks("split(x::y, 0.25) {");
    assert_eq!(
        parse_operation(&t),
        Ok((Operation::Split { dim: s("x::y"), size: s("0.25") }, &t[8..]))
    );
    let t = toks("components()");
    assert_eq!(parse_operation(&t), Ok((Operation::Components, &t[3..])));
    let t = toks("rotate(1)");
    assert_eq!(parse_operation(&t), Err(ParseError::UnknownOperation { name: s("rotate") }));
    let t = toks("scale(1, 2 3)");
    assert_eq!(
        parse_operation(&t),
        Err(ParseError::ExpectedSymbol { expected: Token::Comma, found: Token::Number(s("3")) })
    );
    let t = toks("draw(1, x, 3)");
    assert_eq!(parse_operation(&t), Err(ParseError::ExpectedNumber { found: ident("x") }));
    let t = toks("scale(1, 2");
    assert_eq!(parse_operation(&t), Err(ParseError::UnexpectedEnd));
}

#[test]
fn parse_rule_cases() {
    let t = toks("a -> scale(1, 2, 3) { b c::d } rest");
    let (rule, rest) = parse_rule(&t).unwrap();
    assert_eq!(
        rule,
        Rule {
            input: s("a"),
            output: vec![s("b"), s("c::d")],
            operation: Operation::Scale { x: s("1"), y: s("2"), z: s("3") },
        }
    );
    assert_eq!(rest, &t[t.len() - 1..]);
    let t = toks("a -> components() { }");
    let (rule, rest) = parse_rule(&t).unwrap();
    assert_eq!(rule.output, Vec::<String>::new());
    assert!(rest.is_empty());
    let t = toks("a scale(1, 2, 3) { }");
    assert_eq!(
        parse_rule(&t),
        Err(ParseError::ExpectedSymbol { expected: Token::MapsTo, found: ident("scale") })
    );
    let t = toks("a -> components() { b , }");
    assert_eq!(parse_rule(&t), Err(ParseError::ExpectedOutput { found: Token::Comma }));
    let t = toks("a -> components() { b");
    assert_eq!(parse_rule(&t), Err(ParseError::UnexpectedEnd));
    let t = toks("a -> components() b }");
    assert_eq!(
        parse_rule(&t),
        Err(ParseError::ExpectedSymbol { expected: Token::CurlyOpen, found: ident("b") })
    );
}

#[test]
fn parse_tokens_reads_all_rules() {
    let t = toks("a -> split(x, 1) { b } b -> draw(1, 1, 0) { }");
    let g = parse_tokens(&t).unwrap();
    assert_eq!(g.rules.len(), 2);
    assert_eq!(g.rules[0].input, "a");
    assert_eq!(g.rules[0].operation, Operation::Split { dim: s("x"), size: s("1") });
    assert_eq!(g.rules[1].input, "b");
    assert_eq!(parse_tokens(&[]), Ok(Grammar { rules: vec![] }));
}

#[test]
fn parse_source_cases() {
    let g = parse_source("start -> transpose(0, 1, 0) { top }\n").unwrap();
    assert_eq!(
        g,
        Grammar {
            rules: vec![Rule {
                input: s("start"),
                output: vec![s("top")],
                operation: Operation::Transpose { x: s("0"), y: s("1"), z: s("0") },
            }],
        }
    );
    assert_eq!(parse_source("a -> b ? c"), Err(ParseError::UnknownCharacter('?')));
    assert_eq!(parse_source("a -> b() { }"), Err(ParseError::UnknownOperation { name: s("b") }));
    assert_eq!(parse_source(""), Ok(Grammar { rules: vec![] }));
}

#[test]
fn parse_ignores_layout_example() {
    let a = parse_source("a->scale(1,2,3){b c}b->draw(1,0,0){}").unwrap();
    let b = parse_source("a -> scale ( 1 , 2 , 3 ) { b c }\n b -> draw ( 1 , 0 , 0 ) { }\n").unwrap();
    assert_eq!(a, b);
}
