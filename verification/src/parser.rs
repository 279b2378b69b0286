//! A top-down parser from tokens to grammar rules.
//!
//! A grammar file is a list of rules of the form
//!
//! ```text
//! input -> operation(arguments) { output output ... }
//! ```
//!
//! where names are identifiers, possibly joined by `::` (and possibly
//! starting with `::`), and the operations are `scale(n, n, n)`,
//! `transpose(n, n, n)`, `draw(n, n, n)`, `split(name, n)` and
//! `components()`.
//!
//! The meaning of each parsing function is given by a spec function over the
//! views of the tokens: it tells the value read and how many tokens it took,
//! or the error met first.
use vstd::prelude::*;

use crate::grammar::{
    Grammar,
    Operation,
    Rule,
    SpecOperation,
    SpecRule,
    strings_view,
    rules_view,
};
use crate::token_laws::{law_retokenize_spaced, spaced_texts};
use crate::tokenizer::{SpecToken, Token, copy_token, same_token, spec_tokenize, tokenize};

verus! {

/// Why a token sequence is not a well-formed grammar.
#[derive(Debug, PartialEq)]
pub enum ParseError {
    /// The tokens ended where one more was needed.
    UnexpectedEnd,
    /// A given symbol was required.
    ExpectedSymbol { expected: Token, found: Token },
    /// An identifier was required.
    ExpectedIdentifier { found: Token },
    /// A number was required.
    ExpectedNumber { found: Token },
    /// The name of an operation is not one of the known operations.
    UnknownOperation { name: String },
    /// An output name or the closing `}` of a rule was required.
    ExpectedOutput { found: Token },
    /// The text holds a character at which no token can begin.
    UnknownCharacter(char),
}

/// The mathematical value of a [`ParseError`].
pub enum SpecParseError {
    UnexpectedEnd,
    ExpectedSymbol { expected: SpecToken, found: SpecToken },
    ExpectedIdentifier { found: SpecToken },
    ExpectedNumber { found: SpecToken },
    UnknownOperation { name: Seq<char> },
    ExpectedOutput { found: SpecToken },
    UnknownCharacter(char),
}

impl View for ParseError {
    type V = SpecParseError;

    open spec fn view(&self) -> SpecParseError {
        match self {
            ParseError::UnexpectedEnd => SpecParseError::UnexpectedEnd,
            ParseError::ExpectedSymbol { expected, found } => SpecParseError::ExpectedSymbol {
                expected: expected@,
                found: found@,
            },
            ParseError::ExpectedIdentifier { found } => SpecParseError::ExpectedIdentifier {
                found: found@,
            },
            ParseError::ExpectedNumber { found } => SpecParseError::ExpectedNumber {
                found: found@,
            },
            ParseError::UnknownOperation { name } => SpecParseError::UnknownOperation {
                name: name@,
            },
            ParseError::ExpectedOutput { found } => SpecParseError::ExpectedOutput {
                found: found@,
            },
            ParseError::UnknownCharacter(c) => SpecParseError::UnknownCharacter(*c),
        }
    }
}

/// The views of a sequence of tokens.
pub open spec fn view_tokens(s: Seq<Token>) -> Seq<SpecToken> {
    s.map_values(|t: Token| t@)
}

pub proof fn lemma_view_tokens_skip(s: Seq<Token>, k: int)
    requires
        0 <= k <= s.len(),
    ensures
        view_tokens(s).len() == s.len(),
        view_tokens(s.skip(k)) == view_tokens(s).skip(k),
{
    assert(view_tokens(s.skip(k)) =~= view_tokens(s).skip(k));
}

/// The separator of the parts of a name.
pub open spec fn path_separator() -> Seq<char> {
    seq![':', ':']
}

pub open spec fn kw_scale() -> Seq<char> {
    seq!['s', 'c', 'a', 'l', 'e']
}

pub open spec fn kw_transpose() -> Seq<char> {
    seq!['t', 'r', 'a', 'n', 's', 'p', 'o', 's', 'e']
}

pub open spec fn kw_draw() -> Seq<char> {
    seq!['d', 'r', 'a', 'w']
}

pub open spec fn kw_split() -> Seq<char> {
    seq!['s', 'p', 'l', 'i', 't']
}

pub open spec fn kw_components() -> Seq<char> {
    seq!['c', 'o', 'm', 'p', 'o', 'n', 'e', 'n', 't', 's']
}

/// The symbol `sym` is the first token: it takes one token.
pub open spec fn spec_symbol(ts: Seq<SpecToken>, sym: SpecToken) -> Result<nat, SpecParseError> {
    if ts.len() == 0 {
        Err(SpecParseError::UnexpectedEnd)
    } else if ts[0] == sym {
        Ok(1)
    } else {
        Err(SpecParseError::ExpectedSymbol { expected: sym, found: ts[0] })
    }
}

/// The first token is an identifier: its text.
pub open spec fn spec_identifier_token(ts: Seq<SpecToken>) -> Result<Seq<char>, SpecParseError> {
    if ts.len() == 0 {
        Err(SpecParseError::UnexpectedEnd)
    } else {
        match ts[0] {
            SpecToken::Identifier(n) => Ok(n),
            t => Err(SpecParseError::ExpectedIdentifier { found: t }),
        }
    }
}

/// The first token is a number: its text.
pub open spec fn spec_number(ts: Seq<SpecToken>) -> Result<Seq<char>, SpecParseError> {
    if ts.len() == 0 {
        Err(SpecParseError::UnexpectedEnd)
    } else {
        match ts[0] {
            SpecToken::Number(n) => Ok(n),
            t => Err(SpecParseError::ExpectedNumber { found: t }),
        }
    }
}

/// The `::part` continuations of a name: their text and how many tokens they
/// take. The continuations end at the first token that is not `::`; there
/// must be such a token.
pub open spec fn spec_path_tail(ts: Seq<SpecToken>) -> Result<(Seq<char>, nat), SpecParseError>
    decreases ts.len(),
{
    if ts.len() == 0 {
        Err(SpecParseError::UnexpectedEnd)
    } else if ts[0] != SpecToken::DoubleColon {
        Ok((seq![], 0))
    } else {
        match spec_identifier_token(ts.skip(1)) {
            Err(e) => Err(e),
            Ok(n) => match spec_path_tail(ts.skip(2)) {
                Err(e) => Err(e),
                Ok((r, m)) => Ok((path_separator() + n + r, m + 2)),
            },
        }
    }
}

/// A name: an optional leading `::`, an identifier, then `::identifier`
/// parts. Its text (with the separators) and how many tokens it takes.
pub open spec fn spec_identifier(ts: Seq<SpecToken>) -> Result<(Seq<char>, nat), SpecParseError> {
    let lead: Seq<char> = if ts.len() > 0 && ts[0] == SpecToken::DoubleColon {
        path_separator()
    } else {
        seq![]
    };
    let k: int = if ts.len() > 0 && ts[0] == SpecToken::DoubleColon {
        1
    } else {
        0
    };
    match spec_identifier_token(ts.skip(k)) {
        Err(e) => Err(e),
        Ok(n) => match spec_path_tail(ts.skip(k + 1)) {
            Err(e) => Err(e),
            Ok((r, m)) => Ok((lead + n + r, (k + 1 + m) as nat)),
        },
    }
}

/// `(x, y, z)` with three numbers; it takes seven tokens.
pub open spec fn spec_three_numbers(ts: Seq<SpecToken>) -> Result<
    (Seq<char>, Seq<char>, Seq<char>),
    SpecParseError,
> {
    match spec_symbol(ts, SpecToken::BraceOpen) {
        Err(e) => Err(e),
        Ok(_) => match spec_number(ts.skip(1)) {
            Err(e) => Err(e),
            Ok(x) => match spec_symbol(ts.skip(2), SpecToken::Comma) {
                Err(e) => Err(e),
                Ok(_) => match spec_number(ts.skip(3)) {
                    Err(e) => Err(e),
                    Ok(y) => match spec_symbol(ts.skip(4), SpecToken::Comma) {
                        Err(e) => Err(e),
                        Ok(_) => match spec_number(ts.skip(5)) {
                            Err(e) => Err(e),
                            Ok(z) => match spec_symbol(ts.skip(6), SpecToken::BraceClose) {
                                Err(e) => Err(e),
                                Ok(_) => Ok((x, y, z)),
                            },
                        },
                    },
                },
            },
        },
    }
}

/// `(name, n)`: the name, the number and how many tokens they take.
pub open spec fn spec_split_args(ts: Seq<SpecToken>) -> Result<
    (Seq<char>, Seq<char>, nat),
    SpecParseError,
> {
    match spec_symbol(ts, SpecToken::BraceOpen) {
        Err(e) => Err(e),
        Ok(_) => match spec_identifier(ts.skip(1)) {
            Err(e) => Err(e),
            Ok((dim, n)) => match spec_symbol(ts.skip(1 + n as int), SpecToken::Comma) {
                Err(e) => Err(e),
                Ok(_) => match spec_number(ts.skip(2 + n as int)) {
                    Err(e) => Err(e),
                    Ok(size) => match spec_symbol(ts.skip(3 + n as int), SpecToken::BraceClose) {
                        Err(e) => Err(e),
                        Ok(_) => Ok((dim, size, n + 4)),
                    },
                },
            },
        },
    }
}

/// An operation: its name and arguments, and how many tokens they take.
pub open spec fn spec_operation(ts: Seq<SpecToken>) -> Result<(SpecOperation, nat), SpecParseError> {
    match spec_identifier_token(ts) {
        Err(e) => Err(e),
        Ok(id) => {
            let rest = ts.skip(1);
            if id == kw_scale() {
                match spec_three_numbers(rest) {
                    Err(e) => Err(e),
                    Ok((x, y, z)) => Ok((SpecOperation::Scale { x, y, z }, 8)),
                }
            } else if id == kw_transpose() {
                match spec_three_numbers(rest) {
                    Err(e) => Err(e),
                    Ok((x, y, z)) => Ok((SpecOperation::Transpose { x, y, z }, 8)),
                }
            } else if id == kw_draw() {
                match spec_three_numbers(rest) {
                    Err(e) => Err(e),
                    Ok((r, g, b)) => Ok((SpecOperation::Draw { r, g, b }, 8)),
                }
            } else if id == kw_split() {
                match spec_split_args(rest) {
                    Err(e) => Err(e),
                    Ok((dim, size, n)) => Ok((SpecOperation::Split { dim, size }, n + 1)),
                }
            } else if id == kw_components() {
                match spec_symbol(rest, SpecToken::BraceOpen) {
                    Err(e) => Err(e),
                    Ok(_) => match spec_symbol(rest.skip(1), SpecToken::BraceClose) {
                        Err(e) => Err(e),
                        Ok(_) => Ok((SpecOperation::Components, 3)),
                    },
                }
            } else {
                Err(SpecParseError::UnknownOperation { name: id })
            }
        },
    }
}

/// A name takes at least one token, and no more than there are.
pub proof fn lemma_path_tail_len(ts: Seq<SpecToken>)
    ensures
        spec_path_tail(ts) matches Ok((_, m)) ==> m <= ts.len(),
    decreases ts.len(),
{
    if ts.len() > 0 && ts[0] == SpecToken::DoubleColon && ts.len() >= 2 {
        lemma_path_tail_len(ts.skip(2));
    }
}

pub proof fn lemma_identifier_len(ts: Seq<SpecToken>)
    ensures
        spec_identifier(ts) matches Ok((_, n)) ==> 1 <= n <= ts.len(),
{
    let k: int = if ts.len() > 0 && ts[0] == SpecToken::DoubleColon {
        1
    } else {
        0
    };
    if ts.len() > k {
        lemma_path_tail_len(ts.skip(k + 1));
    }
}

/// The output names of a rule, up to and including the closing `}`: the
/// names and how many tokens they take.
pub open spec fn spec_outputs(ts: Seq<SpecToken>) -> Result<(Seq<Seq<char>>, nat), SpecParseError>
    decreases ts.len(),
{
    if ts.len() == 0 {
        Err(SpecParseError::UnexpectedEnd)
    } else {
        match ts[0] {
            SpecToken::CurlyClose => Ok((seq![], 1)),
            SpecToken::Identifier(_) => match spec_identifier(ts) {
                Err(e) => Err(e),
                Ok((name, n)) => {
                    proof {
                        lemma_identifier_len(ts);
                    }
                    match spec_outputs(ts.skip(n as int)) {
                        Err(e) => Err(e),
                        Ok((rest, m)) => Ok((seq![name] + rest, n + m)),
                    }
                },
            },
            t => Err(SpecParseError::ExpectedOutput { found: t }),
        }
    }
}

/// A rule: `input -> operation { outputs }`, and how many tokens it takes.
#[verifier::opaque]
pub open spec fn spec_rule(ts: Seq<SpecToken>) -> Result<(SpecRule, nat), SpecParseError> {
    match spec_identifier(ts) {
        Err(e) => Err(e),
        Ok((input, a)) => match spec_symbol(ts.skip(a as int), SpecToken::MapsTo) {
            Err(e) => Err(e),
            Ok(_) => match spec_operation(ts.skip(a + 1 as int)) {
                Err(e) => Err(e),
                Ok((operation, b)) => match spec_symbol(ts.skip(a + 1 + b as int), SpecToken::CurlyOpen) {
                    Err(e) => Err(e),
                    Ok(_) => match spec_outputs(ts.skip(a + 2 + b as int)) {
                        Err(e) => Err(e),
                        Ok((output, c)) => Ok(
                            (SpecRule { input, output, operation }, a + 2 + b + c),
                        ),
                    },
                },
            },
        },
    }
}

pub proof fn lemma_three_numbers_len(ts: Seq<SpecToken>)
    ensures
        spec_three_numbers(ts) is Ok ==> ts.len() >= 7,
{
    if spec_three_numbers(ts) is Ok {
        assert(ts.len() >= 7);
    }
}

pub proof fn lemma_split_args_len(ts: Seq<SpecToken>)
    ensures
        spec_split_args(ts) matches Ok((_, _, n)) ==> n <= ts.len(),
{
    if ts.len() >= 1 {
        lemma_identifier_len(ts.skip(1));
        if let Ok((_, n)) = spec_identifier(ts.skip(1)) {
            if spec_split_args(ts) is Ok {
                assert(ts.len() >= 4 + n);
            }
        }
    }
}

pub proof fn lemma_operation_len(ts: Seq<SpecToken>)
    ensures
        spec_operation(ts) matches Ok((_, n)) ==> 1 <= n <= ts.len(),
{
    if ts.len() > 0 {
        lemma_three_numbers_len(ts.skip(1));
        lemma_split_args_len(ts.skip(1));
        if spec_operation(ts) is Ok && spec_identifier_token(ts)->Ok_0 == kw_components() {
            assert(ts.len() >= 2);
            assert(ts.len() >= 3);
        }
    }
}

pub proof fn lemma_outputs_len(ts: Seq<SpecToken>)
    ensures
        spec_outputs(ts) matches Ok((_, n)) ==> 1 <= n <= ts.len(),
    decreases ts.len(),
{
    lemma_identifier_len(ts);
    if ts.len() > 0 {
        if let Ok((_, n)) = spec_identifier(ts) {
            lemma_outputs_len(ts.skip(n as int));
        }
    }
}

pub proof fn lemma_rule_len(ts: Seq<SpecToken>)
    ensures
        spec_rule(ts) matches Ok((_, n)) ==> 1 <= n <= ts.len(),
{
    reveal(spec_rule);
    lemma_identifier_len(ts);
    if let Ok((_, a)) = spec_identifier(ts) {
        if ts.len() > a {
            lemma_operation_len(ts.skip(a + 1 as int));
            if let Ok((_, b)) = spec_operation(ts.skip(a + 1 as int)) {
                if ts.len() > a + 1 + b {
                    lemma_outputs_len(ts.skip(a + 2 + b as int));
                }
            }
        }
    }
}

/// The rules of a whole token sequence, in order.
pub open spec fn spec_rules(ts: Seq<SpecToken>) -> Result<Seq<SpecRule>, SpecParseError>
    decreases ts.len(),
{
    if ts.len() == 0 {
        Ok(seq![])
    } else {
        match spec_rule(ts) {
            Err(e) => Err(e),
            Ok((r, n)) => {
                proof {
                    lemma_rule_len(ts);
                }
                match spec_rules(ts.skip(n as int)) {
                    Err(e) => Err(e),
                    Ok(rest) => Ok(seq![r] + rest),
                }
            },
        }
    }
}

proof fn lemma_skip_skip(s: Seq<Token>, i: int, j: int)
    requires
        0 <= i,
        0 <= j,
        i + j <= s.len(),
    ensures
        s.skip(i).skip(j) == s.skip(i + j),
        view_tokens(s.skip(i + j)) == view_tokens(s).skip(i + j),
{
    assert(s.skip(i).skip(j) =~= s.skip(i + j));
    lemma_view_tokens_skip(s, i + j);
}

/// Requires the symbol `sym` as the first token and returns the tokens after
/// it.
pub fn parse_symbol<'a>(tokens: &'a [Token], sym: Token) -> (r: Result<&'a [Token], ParseError>)
    ensures
        match spec_symbol(view_tokens(tokens@), sym@) {
            Ok(n) => r matches Ok(rest) && rest@ == tokens@.skip(n as int),
            Err(e) => r matches Err(err) && err@ == e,
        },
{
    proof {
        lemma_view_tokens_skip(tokens@, 0);
    }
    if tokens.len() == 0 {
        return Err(ParseError::UnexpectedEnd);
    }
    assert(view_tokens(tokens@)[0] == tokens@[0]@);
    if same_token(&tokens[0], &sym) {
        Ok(&tokens[1..tokens.len()])
    } else {
        Err(ParseError::ExpectedSymbol { expected: sym, found: copy_token(&tokens[0]) })
    }
}

/// Requires an identifier as the first token: its text and the tokens after
/// it.
pub fn parse_identifier_token<'a>(tokens: &'a [Token]) -> (r: Result<
    (&'a String, &'a [Token]),
    ParseError,
>)
    ensures
        match spec_identifier_token(view_tokens(tokens@)) {
            Ok(n) => r matches Ok((name, rest)) && name@ == n && rest@ == tokens@.skip(1),
            Err(e) => r matches Err(err) && err@ == e,
        },
{
    proof {
        lemma_view_tokens_skip(tokens@, 0);
    }
    if tokens.len() == 0 {
        return Err(ParseError::UnexpectedEnd);
    }
    assert(view_tokens(tokens@)[0] == tokens@[0]@);
    match &tokens[0] {
        Token::Identifier(n) => Ok((n, &tokens[1..tokens.len()])),
        t => Err(ParseError::ExpectedIdentifier { found: copy_token(t) }),
    }
}

/// Requires a number as the first token: its text (as written) and the
/// tokens after it.
pub fn parse_number<'a>(tokens: &'a [Token]) -> (r: Result<(String, &'a [Token]), ParseError>)
    ensures
        match spec_number(view_tokens(tokens@)) {
            Ok(n) => r matches Ok((num, rest)) && num@ == n && rest@ == tokens@.skip(1),
            Err(e) => r matches Err(err) && err@ == e,
        },
{
    proof {
        lemma_view_tokens_skip(tokens@, 0);
    }
    if tokens.len() == 0 {
        return Err(ParseError::UnexpectedEnd);
    }
    assert(view_tokens(tokens@)[0] == tokens@[0]@);
    match &tokens[0] {
        Token::Number(n) => Ok((n.clone(), &tokens[1..tokens.len()])),
        t => Err(ParseError::ExpectedNumber { found: copy_token(t) }),
    }
}

/// Reads a name: an optional leading `::`, an identifier, then any number of
/// `::identifier` parts. Returns its text and the tokens after it.
pub fn parse_identifier<'a>(tokens_: &'a [Token]) -> (r: Result<(String, &'a [Token]), ParseError>)
    ensures
        match spec_identifier(view_tokens(tokens_@)) {
            Ok((n, k)) => r matches Ok((name, rest)) && name@ == n && rest@ == tokens_@.skip(
                k as int,
            ),
            Err(e) => r matches Err(err) && err@ == e,
        },
{
    let ghost s = view_tokens(tokens_@);
    proof {
        lemma_view_tokens_skip(tokens_@, 0);
        reveal_strlit("::");
        assert("::"@ =~= path_separator());
    }
    let mut rest = tokens_;
    let mut name = String::new();
    if rest.len() == 0 {
        return Err(ParseError::UnexpectedEnd);
    }
    let ghost mut c: int = 0;
    assert(s[0] == tokens_@[0]@);
    if matches!(rest[0], Token::DoubleColon) {
        name.append("::");
        rest = &rest[1..rest.len()];
        proof {
            c = 1;
        }
    }
    assert(name@ =~= (if s.len() > 0 && s[0] == SpecToken::DoubleColon {
        path_separator()
    } else {
        seq![]
    }));
    proof {
        lemma_skip_skip(tokens_@, 0, c);
    }
    let (n, rest2) = parse_identifier_token(rest)?;
    name.append(n.as_str());
    let mut rest = rest2;
    proof {
        lemma_skip_skip(tokens_@, c, 1);
        c = c + 1;
    }
    loop
        invariant
            0 <= c <= tokens_@.len(),
            s == view_tokens(tokens_@),
            rest@ == tokens_@.skip(c),
            view_tokens(rest@) == s.skip(c),
            spec_identifier(s) == match spec_path_tail(s.skip(c)) {
                Err(e) => Err(e),
                Ok((r, m)) => Ok((name@ + r, (c + m) as nat)),
            },
        decreases tokens_@.len() - c,
    {
        if rest.len() == 0 {
            return Err(ParseError::UnexpectedEnd);
        }
        assert(view_tokens(rest@)[0] == rest@[0]@);
        if matches!(rest[0], Token::DoubleColon) {
            let ghost before = name@;
            rest = &rest[1..rest.len()];
            proof {
                lemma_skip_skip(tokens_@, c, 1);
            }
            let (n, rest2) = parse_identifier_token(rest)?;
            name.append("::");
            name.append(n.as_str());
            rest = rest2;
            proof {
                lemma_skip_skip(tokens_@, c + 1, 1);
                reveal_strlit("::");
                assert("::"@ =~= path_separator());
                assert(name@ == before + path_separator() + n@);
                assert(s.skip(c).skip(1) =~= s.skip(c + 1));
                assert(s.skip(c).skip(2) =~= s.skip(c + 2));
                if let Ok((r, m)) = spec_path_tail(s.skip(c + 2)) {
                    assert(before + (path_separator() + n@ + r) =~= name@ + r);
                }
                c = c + 2;
            }
        } else {
            assert(name@ + seq![] =~= name@);
            return Ok((name, rest));
        }
    }
}

/// Whether the text of `id` is `kw`.
fn is_keyword(id: &String, kw: &str) -> (r: bool)
    ensures
        r == (id@ == kw@),
{
    let k = String::from_str(kw);
    *id == k
}

/// Reads `(x, y, z)` with three numbers; returns their texts and the tokens
/// after the closing brace.
fn parse_three_numbers<'a>(tokens: &'a [Token]) -> (r: Result<
    (String, String, String, &'a [Token]),
    ParseError,
>)
    ensures
        match spec_three_numbers(view_tokens(tokens@)) {
            Ok((x, y, z)) => r matches Ok((a, b, c, rest)) && a@ == x && b@ == y && c@ == z
                && rest@ == tokens@.skip(7),
            Err(e) => r matches Err(err) && err@ == e,
        },
{
    let ghost s = view_tokens(tokens@);
    proof {
        lemma_view_tokens_skip(tokens@, 0);
        lemma_three_numbers_len(s);
    }
    let rest = parse_symbol(tokens, Token::BraceOpen)?;
    proof {
        lemma_skip_skip(tokens@, 0, 1);
    }
    let (x, rest) = parse_number(rest)?;
    proof {
        lemma_skip_skip(tokens@, 1, 1);
    }
    let rest = parse_symbol(rest, Token::Comma)?;
    proof {
        lemma_skip_skip(tokens@, 2, 1);
    }
    let (y, rest) = parse_number(rest)?;
    proof {
        lemma_skip_skip(tokens@, 3, 1);
    }
    let rest = parse_symbol(rest, Token::Comma)?;
    proof {
        lemma_skip_skip(tokens@, 4, 1);
    }
    let (z, rest) = parse_number(rest)?;
    proof {
        lemma_skip_skip(tokens@, 5, 1);
    }
    let rest = parse_symbol(rest, Token::BraceClose)?;
    proof {
        lemma_skip_skip(tokens@, 6, 1);
    }
    Ok((x, y, z, rest))
}

/// Reads an operation: its name and its arguments in braces. Returns the
/// operation and the tokens after it.
pub fn parse_operation<'a>(tokens_: &'a [Token]) -> (r: Result<(Operation, &'a [Token]), ParseError>)
    ensures
        match spec_operation(view_tokens(tokens_@)) {
            Ok((op, n)) => r matches Ok((o, rest)) && o@ == op && rest@ == tokens_@.skip(n as int),
            Err(e) => r matches Err(err) && err@ == e,
        },
{
    let ghost s = view_tokens(tokens_@);
    let (id, rest) = parse_identifier_token(tokens_)?;
    proof {
        lemma_skip_skip(tokens_@, 0, 1);
        lemma_operation_len(s);
        reveal_strlit("scale");
        reveal_strlit("transpose");
        reveal_strlit("draw");
        reveal_strlit("split");
        reveal_strlit("components");
        assert("scale"@ =~= kw_scale());
        assert("transpose"@ =~= kw_transpose());
        assert("draw"@ =~= kw_draw());
        assert("split"@ =~= kw_split());
        assert("components"@ =~= kw_components());
    }
    if is_keyword(id, "scale") {
        let (x, y, z, rest) = parse_three_numbers(rest)?;
        proof {
            lemma_skip_skip(tokens_@, 1, 7);
        }
        Ok((Operation::Scale { x, y, z }, rest))
    } else if is_keyword(id, "transpose") {
        let (x, y, z, rest) = parse_three_numbers(rest)?;
        proof {
            lemma_skip_skip(tokens_@, 1, 7);
        }
        Ok((Operation::Transpose { x, y, z }, rest))
    } else if is_keyword(id, "draw") {
        let (r, g, b, rest) = parse_three_numbers(rest)?;
        proof {
            lemma_skip_skip(tokens_@, 1, 7);
        }
        Ok((Operation::Draw { r, g, b }, rest))
    } else if is_keyword(id, "split") {
        let ghost r1 = s.skip(1);
        proof {
            lemma_split_args_len(r1);
            if r1.len() > 0 {
                lemma_identifier_len(r1.skip(1));
            }
        }
        let rest = parse_symbol(rest, Token::BraceOpen)?;
        proof {
            lemma_skip_skip(tokens_@, 1, 1);
            assert(r1.skip(1) =~= s.skip(2));
        }
        let (dir, rest) = parse_identifier(rest)?;
        let ghost n: int = spec_identifier(s.skip(2))->Ok_0.1 as int;
        proof {
            lemma_identifier_len(s.skip(2));
            lemma_skip_skip(tokens_@, 2, n);
            assert(r1.skip(1 + n) =~= s.skip(2 + n));
        }
        let rest = parse_symbol(rest, Token::Comma)?;
        proof {
            lemma_skip_skip(tokens_@, 2 + n, 1);
            assert(r1.skip(2 + n) =~= s.skip(3 + n));
        }
        let (len, rest) = parse_number(rest)?;
        proof {
            lemma_skip_skip(tokens_@, 3 + n, 1);
            assert(r1.skip(3 + n) =~= s.skip(4 + n));
        }
        let rest = parse_symbol(rest, Token::BraceClose)?;
        proof {
            lemma_skip_skip(tokens_@, 4 + n, 1);
        }
        Ok((Operation::Split { dim: dir, size: len }, rest))
    } else if is_keyword(id, "components") {
        let rest = parse_symbol(rest, Token::BraceOpen)?;
        proof {
            lemma_skip_skip(tokens_@, 1, 1);
            assert(s.skip(1).skip(1) =~= s.skip(2));
        }
        let rest = parse_symbol(rest, Token::BraceClose)?;
        proof {
            lemma_skip_skip(tokens_@, 2, 1);
        }
        Ok((Operation::Components, rest))
    } else {
        Err(ParseError::UnknownOperation { name: id.clone() })
    }
}

/// Reads a rule: `input -> operation { output ... }`. Returns the rule and
/// the tokens after its closing `}`.
pub fn parse_rule<'a>(tokens_: &'a [Token]) -> (r: Result<(Rule, &'a [Token]), ParseError>)
    ensures
        match spec_rule(view_tokens(tokens_@)) {
            Ok((rule, n)) => r matches Ok((ru, rest)) && ru@ == rule && rest@ == tokens_@.skip(
                n as int,
            ),
            Err(e) => r matches Err(err) && err@ == e,
        },
{
    let ghost s = view_tokens(tokens_@);
    proof {
        reveal(spec_rule);
        lemma_view_tokens_skip(tokens_@, 0);
        lemma_identifier_len(s);
    }
    let (id, rest) = parse_identifier(tokens_)?;
    let ghost a: int = spec_identifier(s)->Ok_0.1 as int;
    proof {
        lemma_skip_skip(tokens_@, 0, a);
    }
    let rest = parse_symbol(rest, Token::MapsTo)?;
    proof {
        lemma_skip_skip(tokens_@, a, 1);
        lemma_operation_len(s.skip(a + 1));
    }
    let (operation, rest) = parse_operation(rest)?;
    let ghost b: int = spec_operation(s.skip(a + 1))->Ok_0.1 as int;
    proof {
        lemma_skip_skip(tokens_@, a + 1, b);
    }
    let rest = parse_symbol(rest, Token::CurlyOpen)?;
    proof {
        lemma_skip_skip(tokens_@, a + 1 + b, 1);
    }
    let mut rest = rest;
    let mut output: Vec<String> = Vec::new();
    let ghost c0: int = a + 2 + b;
    let ghost mut c: int = c0;
    assert(strings_view(output@) + seq![] =~= seq![]);
    loop
        invariant
            s == view_tokens(tokens_@),
            0 <= a,
            0 <= b,
            c0 <= c <= tokens_@.len(),
            rest@ == tokens_@.skip(c),
            view_tokens(rest@) == s.skip(c),
            spec_identifier(s) == Ok::<(Seq<char>, nat), SpecParseError>((id@, a as nat)),
            spec_operation(s.skip(a + 1)) == Ok::<(SpecOperation, nat), SpecParseError>(
                (operation@, b as nat),
            ),
            c0 == a + 2 + b,
            spec_rule(s) == match spec_outputs(s.skip(c0)) {
                Err(e) => Err(e),
                Ok((output, k)) => Ok((SpecRule { input: id@, output, operation: operation@ }, (c0 + k) as nat)),
            },
            spec_outputs(s.skip(c0)) == match spec_outputs(s.skip(c)) {
                Err(e) => Err(e),
                Ok((outs, k)) => Ok((strings_view(output@) + outs, (c - c0 + k) as nat)),
            },
        decreases tokens_@.len() - c,
    {
        if rest.len() == 0 {
            return Err(ParseError::UnexpectedEnd);
        }
        assert(view_tokens(rest@)[0] == rest@[0]@);
        match &rest[0] {
            Token::CurlyClose => {
                proof {
                    lemma_skip_skip(tokens_@, c, 1);
                    assert(strings_view(output@) + seq![] =~= strings_view(output@));
                }
                return Ok((Rule { input: id, output: output, operation: operation }, &rest[1..rest.len()]));
            },
            Token::Identifier(_) => {
                proof {
                    lemma_identifier_len(s.skip(c));
                }
                let ghost before = strings_view(output@);
                let (name, rest2) = parse_identifier(rest)?;
                let ghost n: int = spec_identifier(s.skip(c))->Ok_0.1 as int;
                proof {
                    lemma_skip_skip(tokens_@, c, n);
                }
                rest = rest2;
                output.push(name);
                proof {
                    assert(s.skip(c).skip(n) =~= s.skip(c + n));
                    assert(strings_view(output@) =~= before + seq![name@]);
                    if let Ok((outs, k)) = spec_outputs(s.skip(c + n)) {
                        assert(before + (seq![name@] + outs) =~= strings_view(output@) + outs);
                    }
                    c = c + n;
                }
            },
            t => {
                return Err(ParseError::ExpectedOutput { found: copy_token(t) });
            },
        }
    }
}

/// Reads all rules of a token sequence, in order.
pub fn parse_tokens(tokens: &[Token]) -> (r: Result<Grammar, ParseError>)
    ensures
        match spec_rules(view_tokens(tokens@)) {
            Ok(rules) => r matches Ok(g) && g@ == rules,
            Err(e) => r matches Err(err) && err@ == e,
        },
{
    let ghost s = view_tokens(tokens@);
    proof {
        lemma_view_tokens_skip(tokens@, 0);
    }
    let mut grammar = Grammar { rules: Vec::new() };
    let mut tokens_seq = tokens;
    let ghost mut c: int = 0;
    proof {
        assert(s.skip(0) =~= s);
        assert(grammar@ =~= seq![]);
        if let Ok(rs) = spec_rules(s) {
            assert(grammar@ + rs =~= rs);
        }
    }
    while tokens_seq.len() > 0
        invariant
            s == view_tokens(tokens@),
            0 <= c <= tokens@.len(),
            tokens_seq@ == tokens@.skip(c),
            view_tokens(tokens_seq@) == s.skip(c),
            spec_rules(s) == match spec_rules(s.skip(c)) {
                Err(e) => Err(e),
                Ok(rs) => Ok(grammar@ + rs),
            },
        decreases tokens@.len() - c,
    {
        proof {
            lemma_rule_len(s.skip(c));
        }
        let ghost before = grammar@;
        let (rule, rest) = parse_rule(tokens_seq)?;
        let ghost n: int = spec_rule(s.skip(c))->Ok_0.1 as int;
        proof {
            lemma_skip_skip(tokens@, c, n);
        }
        tokens_seq = rest;
        grammar.rules.push(rule);
        proof {
            assert(s.skip(c).skip(n) =~= s.skip(c + n));
            assert(grammar@ =~= before + seq![rule@]);
            if let Ok(rs) = spec_rules(s.skip(c + n)) {
                assert(before + (seq![rule@] + rs) =~= grammar@ + rs);
            }
            c = c + n;
        }
    }
    assert(grammar@ + seq![] =~= grammar@);
    Ok(grammar)
}

/// The rules of a grammar file, or why the text is not one.
pub open spec fn spec_parse_source(text: Seq<char>) -> Result<Seq<SpecRule>, SpecParseError> {
    match spec_tokenize(text) {
        Err(c) => Err(SpecParseError::UnknownCharacter(c)),
        Ok(ts) => spec_rules(ts),
    }
}

/// Tokenizes the text of a grammar file and reads its rules.
pub fn parse_source(contents: &str) -> (r: Result<Grammar, ParseError>)
    ensures
        match spec_parse_source(contents@) {
            Ok(rules) => r matches Ok(g) && g@ == rules,
            Err(e) => r matches Err(err) && err@ == e,
        },
{
    match tokenize(contents) {
        Err(c) => Err(ParseError::UnknownCharacter(c)),
        Ok(tokens) => parse_tokens(tokens.as_slice()),
    }
}

/// The layout of a grammar file does not matter: writing its tokens back
/// out, separated by single spaces, gives a file with the same rules (or the
/// same error).
pub proof fn law_parse_ignores_layout(text: Seq<char>)
    requires
        spec_tokenize(text) is Ok,
    ensures
        spec_parse_source(spaced_texts(spec_tokenize(text)->Ok_0)) == spec_parse_source(text),
{
    law_retokenize_spaced(text);
}

/// `( n1 , n2 , n3 )`
pub open spec fn three_number_args(n1: Seq<char>, n2: Seq<char>, n3: Seq<char>) -> Seq<SpecToken> {
    seq![
        SpecToken::BraceOpen,
        SpecToken::Number(n1),
        SpecToken::Comma,
        SpecToken::Number(n2),
        SpecToken::Comma,
        SpecToken::Number(n3),
        SpecToken::BraceClose,
    ]
}

proof fn lemma_three_numbers_read(n1: Seq<char>, n2: Seq<char>, n3: Seq<char>, rest: Seq<SpecToken>)
    ensures
        spec_three_numbers(three_number_args(n1, n2, n3) + rest) == Ok::<
            (Seq<char>, Seq<char>, Seq<char>),
            SpecParseError,
        >((n1, n2, n3)),
{
    let ts = three_number_args(n1, n2, n3) + rest;
    assert(ts[0] == SpecToken::BraceOpen);
    assert(ts.skip(1)[0] == SpecToken::Number(n1));
    assert(ts.skip(2)[0] == SpecToken::Comma);
    assert(ts.skip(3)[0] == SpecToken::Number(n2));
    assert(ts.skip(4)[0] == SpecToken::Comma);
    assert(ts.skip(5)[0] == SpecToken::Number(n3));
    assert(ts.skip(6)[0] == SpecToken::BraceClose);
}

/// The three numbers of `scale`, `transpose` and `draw` are read in the
/// order in which they are written: into x, y, z, and into r, g, b. The
/// operation takes eight tokens, whatever follows it.
pub proof fn law_three_number_operations(
    n1: Seq<char>,
    n2: Seq<char>,
    n3: Seq<char>,
    rest: Seq<SpecToken>,
)
    ensures
        spec_operation(
            seq![SpecToken::Identifier(seq!['s', 'c', 'a', 'l', 'e'])] + three_number_args(n1, n2, n3)
                + rest,
        ) == Ok::<(SpecOperation, nat), SpecParseError>(
            (SpecOperation::Scale { x: n1, y: n2, z: n3 }, 8),
        ),
        spec_operation(
            seq![SpecToken::Identifier(seq!['t', 'r', 'a', 'n', 's', 'p', 'o', 's', 'e'])]
                + three_number_args(n1, n2, n3) + rest,
        ) == Ok::<(SpecOperation, nat), SpecParseError>(
            (SpecOperation::Transpose { x: n1, y: n2, z: n3 }, 8),
        ),
        spec_operation(
            seq![SpecToken::Identifier(seq!['d', 'r', 'a', 'w'])] + three_number_args(n1, n2, n3)
                + rest,
        ) == Ok::<(SpecOperation, nat), SpecParseError>(
            (SpecOperation::Draw { r: n1, g: n2, b: n3 }, 8),
        ),
{
    lemma_three_numbers_read(n1, n2, n3, rest);
    let args = three_number_args(n1, n2, n3) + rest;
    let a = seq![SpecToken::Identifier(seq!['s', 'c', 'a', 'l', 'e'])] + three_number_args(n1, n2, n3) + rest;
    assert(a.skip(1) =~= args);
    let b = seq![SpecToken::Identifier(seq!['t', 'r', 'a', 'n', 's', 'p', 'o', 's', 'e'])]
        + three_number_args(n1, n2, n3) + rest;
    assert(b.skip(1) =~= args);
    let c = seq![SpecToken::Identifier(seq!['d', 'r', 'a', 'w'])] + three_number_args(n1, n2, n3) + rest;
    assert(c.skip(1) =~= args);
    assert(seq!['s', 'c', 'a', 'l', 'e'] != kw_transpose());
    assert(seq!['s', 'c', 'a', 'l', 'e'] =~= kw_scale());
    assert(seq!['t', 'r', 'a', 'n', 's', 'p', 'o', 's', 'e'] =~= kw_transpose());
    assert(seq!['t', 'r', 'a', 'n', 's', 'p', 'o', 's', 'e'] != kw_scale()) by {
        assert(kw_scale().len() != kw_transpose().len());
    }
    assert(seq!['d', 'r', 'a', 'w'] =~= kw_draw());
    assert(seq!['d', 'r', 'a', 'w'] != kw_scale()) by {
        assert(kw_scale().len() != kw_draw().len());
    }
    assert(seq!['d', 'r', 'a', 'w'] != kw_transpose()) by {
        assert(kw_draw().len() != kw_transpose().len());
    }
}

proof fn lemma_rule_after_name(x: Seq<SpecToken>, y: Seq<SpecToken>)
    requires
        spec_identifier(x) is Ok,
        spec_identifier(y) is Ok,
        x.skip(spec_identifier(x)->Ok_0.1 as int) == y.skip(spec_identifier(y)->Ok_0.1 as int),
    ensures
        spec_rule(x) is Ok ==> spec_rule(y) == Ok::<(SpecRule, nat), SpecParseError>(
            (
                SpecRule {
                    input: spec_identifier(y)->Ok_0.0,
                    output: spec_rule(x)->Ok_0.0.output,
                    operation: spec_rule(x)->Ok_0.0.operation,
                },
                (spec_rule(x)->Ok_0.1 - spec_identifier(x)->Ok_0.1 + spec_identifier(y)->Ok_0.1) as nat,
            ),
        ),
{
    reveal(spec_rule);
    lemma_identifier_len(x);
    lemma_identifier_len(y);
    let k1 = spec_identifier(x)->Ok_0.1 as int;
    let k2 = spec_identifier(y)->Ok_0.1 as int;
    let rest = x.skip(k1);
    if spec_rule(x) is Ok {
        assert(rest.len() > 0);
        assert(x.skip(k1 + 1) =~= rest.skip(1));
        assert(y.skip(k2 + 1) =~= rest.skip(1));
        lemma_operation_len(rest.skip(1));
        let b = spec_operation(rest.skip(1))->Ok_0.1 as int;
        assert(x.skip(k1 + 1 + b) =~= rest.skip(1 + b));
        assert(y.skip(k2 + 1 + b) =~= rest.skip(1 + b));
        assert(x.skip(k1 + 2 + b) =~= rest.skip(2 + b));
        assert(y.skip(k2 + 2 + b) =~= rest.skip(2 + b));
    }
}

/// The input of a rule is read as a whole name: the rule read from
/// `a :: b ...` is the rule read from `a ...` with `::b` put into its input
/// right after `a` (so `a :: b -> ...` has the input `a::b`), and it takes
/// two tokens more.
pub proof fn law_rule_input_is_whole_name(a: Seq<char>, b: Seq<char>, t: Seq<SpecToken>)
    requires
        spec_rule(seq![SpecToken::Identifier(a)] + t) is Ok,
    ensures
        ({
            let (r, n) = spec_rule(seq![SpecToken::Identifier(a)] + t)->Ok_0;
            spec_rule(
                seq![SpecToken::Identifier(a), SpecToken::DoubleColon, SpecToken::Identifier(b)] + t,
            ) == Ok::<(SpecRule, nat), SpecParseError>(
                (
                    SpecRule {
                        input: a + seq![':', ':'] + b + r.input.skip(a.len() as int),
                        output: r.output,
                        operation: r.operation,
                    },
                    n + 2,
                ),
            ) && r.input == a + r.input.skip(a.len() as int)
        }),
{
    let short = seq![SpecToken::Identifier(a)] + t;
    let long = seq![SpecToken::Identifier(a), SpecToken::DoubleColon, SpecToken::Identifier(b)] + t;
    reveal(spec_rule);
    assert(spec_identifier(short) is Ok);
    assert(short.skip(0) =~= short);
    assert(long.skip(0) =~= long);
    assert(short.skip(1) =~= t);
    assert(long.skip(1).skip(1) =~= long.skip(2));
    assert(long.skip(1).skip(2) =~= t);
    assert(long.skip(2)[0] == SpecToken::Identifier(b));
    let (tail_name, m) = spec_path_tail(t)->Ok_0;
    assert(spec_path_tail(long.skip(1)) == Ok::<(Seq<char>, nat), SpecParseError>(
        (path_separator() + b + tail_name, m + 2),
    ));
    assert(a + (path_separator() + b + tail_name) =~= a + seq![':', ':'] + b + tail_name);
    assert(spec_identifier(long) == Ok::<(Seq<char>, nat), SpecParseError>(
        (a + seq![':', ':'] + b + tail_name, m + 3),
    ));
    lemma_path_tail_len(t);
    assert(long.skip(m + 3 as int) =~= short.skip(m + 1 as int));
    lemma_rule_after_name(short, long);
    assert(spec_identifier(short) == Ok::<(Seq<char>, nat), SpecParseError>((a + tail_name, m + 1)));
    assert((a + tail_name).skip(a.len() as int) =~= tail_name);
}

} // verus!
