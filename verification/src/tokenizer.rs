//! Splits the text of a grammar file into tokens.
//!
//! The tokenizer reads one character at a time. A token is started by the
//! first character that is not white space and grows as long as the next
//! character can be merged into it (longest match).
use vstd::prelude::*;

verus! {

/// A lexical unit of a grammar file.
#[derive(Debug, Clone, PartialEq)]
pub enum Token {
    Identifier(String),
    Number(String),
    CurlyOpen,
    CurlyClose,
    MapsTo,
    Comma,
    BraceOpen,
    BraceClose,
    Minus,
    Skip,
    Colon,
    DoubleColon,
    Dot,
    Star,
}

/// The mathematical value of a [`Token`]: texts are sequences of characters.
pub enum SpecToken {
    Identifier(Seq<char>),
    Number(Seq<char>),
    CurlyOpen,
    CurlyClose,
    MapsTo,
    Comma,
    BraceOpen,
    BraceClose,
    Minus,
    Skip,
    Colon,
    DoubleColon,
    Dot,
    Star,
}

impl View for Token {
    type V = SpecToken;

    open spec fn view(&self) -> SpecToken {
        match self {
            Token::Identifier(s) => SpecToken::Identifier(s@),
            Token::Number(s) => SpecToken::Number(s@),
            Token::CurlyOpen => SpecToken::CurlyOpen,
            Token::CurlyClose => SpecToken::CurlyClose,
            Token::MapsTo => SpecToken::MapsTo,
            Token::Comma => SpecToken::Comma,
            Token::BraceOpen => SpecToken::BraceOpen,
            Token::BraceClose => SpecToken::BraceClose,
            Token::Minus => SpecToken::Minus,
            Token::Skip => SpecToken::Skip,
            Token::Colon => SpecToken::Colon,
            Token::DoubleColon => SpecToken::DoubleColon,
            Token::Dot => SpecToken::Dot,
            Token::Star => SpecToken::Star,
        }
    }
}

/// The view of an optional token.
pub open spec fn opt_token_view(t: Option<Token>) -> Option<SpecToken> {
    match t {
        Some(t) => Some(t@),
        None => None,
    }
}

/// The characters that a token stands for in the source text.
pub open spec fn token_text(t: SpecToken) -> Seq<char> {
    match t {
        SpecToken::Identifier(s) => s,
        SpecToken::Number(s) => s,
        SpecToken::CurlyOpen => seq!['{'],
        SpecToken::CurlyClose => seq!['}'],
        SpecToken::MapsTo => seq!['-', '>'],
        SpecToken::Comma => seq![','],
        SpecToken::BraceOpen => seq!['('],
        SpecToken::BraceClose => seq![')'],
        SpecToken::Minus => seq!['-'],
        SpecToken::Skip => seq![],
        SpecToken::Colon => seq![':'],
        SpecToken::DoubleColon => seq![':', ':'],
        SpecToken::Dot => seq!['.'],
        SpecToken::Star => seq!['*'],
    }
}

pub open spec fn is_digit(c: char) -> bool {
    '0' <= c && c <= '9'
}

/// Characters that may begin an identifier.
pub open spec fn is_ident_start(c: char) -> bool {
    ('a' <= c && c <= 'z') || ('A' <= c && c <= 'Z') || c == '_'
}

/// Characters that may continue an identifier.
pub open spec fn is_ident_char(c: char) -> bool {
    is_ident_start(c) || is_digit(c)
}

/// White space, which separates tokens and is otherwise dropped.
pub open spec fn is_space(c: char) -> bool {
    c == ' ' || c == '\n' || c == '\r' || c == '\t'
}

/// Characters that begin a token.
pub open spec fn starts_token(c: char) -> bool {
    ||| is_ident_start(c)
    ||| is_digit(c)
    ||| c == '{'
    ||| c == '}'
    ||| c == '-'
    ||| c == ','
    ||| c == '('
    ||| c == ')'
    ||| c == ':'
    ||| c == '.'
    ||| c == '*'
}

/// Characters that may appear in a grammar file at all.
pub open spec fn is_known_char(c: char) -> bool {
    starts_token(c) || is_space(c)
}

/// The token that a single character opens.
pub open spec fn spec_create_token(c: char) -> SpecToken
    recommends
        is_known_char(c),
{
    if is_ident_start(c) {
        SpecToken::Identifier(seq![c])
    } else if is_digit(c) {
        SpecToken::Number(seq![c])
    } else if c == '{' {
        SpecToken::CurlyOpen
    } else if c == '}' {
        SpecToken::CurlyClose
    } else if c == '-' {
        SpecToken::Minus
    } else if c == ',' {
        SpecToken::Comma
    } else if c == '(' {
        SpecToken::BraceOpen
    } else if c == ')' {
        SpecToken::BraceClose
    } else if c == ':' {
        SpecToken::Colon
    } else if c == '.' {
        SpecToken::Dot
    } else if c == '*' {
        SpecToken::Star
    } else {
        SpecToken::Skip
    }
}

/// The token that `t` becomes when the next character `c` is merged into it,
/// or `None` when `c` ends `t`.
pub open spec fn spec_merge(t: SpecToken, c: char) -> Option<SpecToken> {
    match t {
        SpecToken::Identifier(s) => if is_ident_char(c) {
            Some(SpecToken::Identifier(s.push(c)))
        } else {
            None
        },
        SpecToken::Minus => if c == '>' {
            Some(SpecToken::MapsTo)
        } else if is_digit(c) {
            Some(SpecToken::Number(seq!['-', c]))
        } else {
            None
        },
        SpecToken::Number(s) => if c == '.' || is_digit(c) {
            Some(SpecToken::Number(s.push(c)))
        } else {
            None
        },
        SpecToken::Colon => if c == ':' {
            Some(SpecToken::DoubleColon)
        } else {
            None
        },
        _ => None,
    }
}

/// Grows `t` with the characters of `s` for as long as they merge into it:
/// the token that results and how many characters of `s` it took.
pub open spec fn lex(t: SpecToken, s: Seq<char>) -> (SpecToken, nat)
    decreases s.len(),
{
    if s.len() == 0 {
        (t, 0)
    } else {
        match spec_merge(t, s[0]) {
            Some(t2) => {
                let (r, n) = lex(t2, s.drop_first());
                (r, n + 1)
            },
            None => (t, 0),
        }
    }
}

/// The number of white-space characters at the start of `s`.
pub open spec fn leading_spaces(s: Seq<char>) -> nat
    decreases s.len(),
{
    if s.len() > 0 && is_space(s[0]) {
        1 + leading_spaces(s.drop_first())
    } else {
        0
    }
}

/// The next token can be read from `s`: after the leading white space there
/// is either nothing left or a character that begins a token.
pub open spec fn can_take_token(s: Seq<char>) -> bool {
    let k = leading_spaces(s);
    k == s.len() || starts_token(s[k as int])
}

/// The next token of `s` (`None` when only white space is left) and the
/// number of characters that reading it consumes.
pub open spec fn take_token(s: Seq<char>) -> (Option<SpecToken>, nat) {
    let k = leading_spaces(s) as int;
    if k >= s.len() {
        (None, s.len())
    } else {
        let (t, n) = lex(spec_create_token(s[k]), s.skip(k + 1));
        (Some(t), (k + 1 + n) as nat)
    }
}

/// All characters below `leading_spaces(s)` are white space, and the one at
/// that position, if any, is not.
pub proof fn lemma_leading_spaces(s: Seq<char>)
    ensures
        leading_spaces(s) <= s.len(),
        forall|i: int| 0 <= i < leading_spaces(s) ==> is_space(#[trigger] s[i]),
        leading_spaces(s) < s.len() ==> !is_space(s[leading_spaces(s) as int]),
    decreases s.len(),
{
    if s.len() > 0 && is_space(s[0]) {
        lemma_leading_spaces(s.drop_first());
        assert forall|i: int| 0 <= i < leading_spaces(s) implies is_space(#[trigger] s[i]) by {
            if i > 0 {
                assert(s[i] == s.drop_first()[i - 1]);
            }
        }
    }
}

/// A token never takes more characters than there are.
pub proof fn lemma_lex_len(t: SpecToken, s: Seq<char>)
    ensures
        lex(t, s).1 <= s.len(),
    decreases s.len(),
{
    if s.len() > 0 {
        if let Some(t2) = spec_merge(t, s[0]) {
            lemma_lex_len(t2, s.drop_first());
        }
    }
}

/// Reading a token consumes at least one and at most all characters.
pub proof fn lemma_take_token_len(s: Seq<char>)
    ensures
        take_token(s).1 <= s.len(),
        s.len() > 0 ==> take_token(s).1 > 0,
{
    lemma_leading_spaces(s);
    let k = leading_spaces(s) as int;
    if k < s.len() {
        lemma_lex_len(spec_create_token(s[k]), s.skip(k + 1));
    }
}

/// `leading_spaces(s)` is the position of the first character that is not
/// white space (or the length of `s`).
pub proof fn lemma_leading_spaces_at(s: Seq<char>, i: int)
    requires
        0 <= i <= s.len(),
        forall|j: int| 0 <= j < i ==> is_space(#[trigger] s[j]),
        i < s.len() ==> !is_space(s[i]),
    ensures
        leading_spaces(s) == i,
    decreases i,
{
    if i > 0 {
        assert forall|j: int| 0 <= j < i - 1 implies is_space(#[trigger] s.drop_first()[j]) by {
            assert(s.drop_first()[j] == s[j + 1]);
        }
        lemma_leading_spaces_at(s.drop_first(), i - 1);
    }
}

/// Putting a character back in front of the characters still to be read
/// (as `save_char` does) and then taking the next one (as `next_char` does)
/// gives that character and leaves the rest as it was.
pub proof fn law_put_back_then_take(s: Seq<char>, c: char)
    ensures
        (seq![c] + s).len() > 0,
        (seq![c] + s)[0] == c,
        (seq![c] + s).drop_first() == s,
{
    assert((seq![c] + s).drop_first() =~= s);
}

/// The tokens of a whole text, or the first character at which no token can
/// begin.
pub open spec fn spec_tokenize(s: Seq<char>) -> Result<Seq<SpecToken>, char>
    decreases s.len(),
{
    if !can_take_token(s) {
        Err(s[leading_spaces(s) as int])
    } else {
        match take_token(s).0 {
            None => Ok(seq![]),
            Some(t) => {
                proof {
                    lemma_take_token_len(s);
                }
                match spec_tokenize(s.skip(take_token(s).1 as int)) {
                    Ok(rest) => Ok(seq![t] + rest),
                    Err(c) => Err(c),
                }
            },
        }
    }
}

/// Calls `String::push`, which appends the character `c` to the end of `s`.
#[verifier::external_body]
fn push_char(s: &mut String, c: char)
    ensures
        final(s)@ == old(s)@.push(c),
{
    s.push(c);
}

fn space(c: char) -> (r: bool)
    ensures
        r == is_space(c),
{
    c == ' ' || c == '\n' || c == '\r' || c == '\t'
}

fn token_start(c: char) -> (r: bool)
    ensures
        r == starts_token(c),
{
    ident_start(c) || digit(c) || c == '{' || c == '}' || c == '-' || c == ',' || c == '('
        || c == ')' || c == ':' || c == '.' || c == '*'
}

fn digit(c: char) -> (r: bool)
    ensures
        r == is_digit(c),
{
    '0' <= c && c <= '9'
}

fn ident_start(c: char) -> (r: bool)
    ensures
        r == is_ident_start(c),
{
    ('a' <= c && c <= 'z') || ('A' <= c && c <= 'Z') || c == '_'
}

/// A string that holds the single character `c`.
fn string_of_char(c: char) -> (s: String)
    ensures
        s@ == seq![c],
{
    let mut s = String::new();
    push_char(&mut s, c);
    s
}

/// Tries to merge the character `ch` into `token`. Returns the (possibly
/// grown) token and whether `ch` was merged.
pub fn merge_token(token: Token, ch: char) -> (r: (Token, bool))
    ensures
        r.1 == spec_merge(token@, ch) is Some,
        r.1 ==> Some(r.0@) == spec_merge(token@, ch),
        !r.1 ==> r.0@ == token@,
{
    match token {
        Token::Identifier(name) => {
            let mut name = name;
            if ident_start(ch) || digit(ch) {
                push_char(&mut name, ch);
                (Token::Identifier(name), true)
            } else {
                (Token::Identifier(name), false)
            }
        },
        Token::Minus => {
            if ch == '>' {
                (Token::MapsTo, true)
            } else if digit(ch) {
                let mut s = string_of_char('-');
                push_char(&mut s, ch);
                assert(s@ =~= seq!['-', ch]);
                (Token::Number(s), true)
            } else {
                (Token::Minus, false)
            }
        },
        Token::Number(val) => {
            let mut val = val;
            if ch == '.' || digit(ch) {
                push_char(&mut val, ch);
                (Token::Number(val), true)
            } else {
                (Token::Number(val), false)
            }
        },
        Token::Colon => {
            if ch == ':' {
                (Token::DoubleColon, true)
            } else {
                (Token::Colon, false)
            }
        },
        other => (other, false),
    }
}

/// The token that the character `ch` opens; white space gives `Skip`.
pub fn create_token(ch: char) -> (r: Option<Token>)
    requires
        is_known_char(ch),
    ensures
        opt_token_view(r) == Some(spec_create_token(ch)),
{
    if ident_start(ch) {
        Some(Token::Identifier(string_of_char(ch)))
    } else if digit(ch) {
        Some(Token::Number(string_of_char(ch)))
    } else if ch == '{' {
        Some(Token::CurlyOpen)
    } else if ch == '}' {
        Some(Token::CurlyClose)
    } else if ch == '-' {
        Some(Token::Minus)
    } else if ch == ',' {
        Some(Token::Comma)
    } else if ch == '(' {
        Some(Token::BraceOpen)
    } else if ch == ')' {
        Some(Token::BraceClose)
    } else if ch == ':' {
        Some(Token::Colon)
    } else if ch == '.' {
        Some(Token::Dot)
    } else if ch == '*' {
        Some(Token::Star)
    } else {
        Some(Token::Skip)
    }
}

/// A copy of a token.
pub fn copy_token(t: &Token) -> (r: Token)
    ensures
        r@ == t@,
{
    match t {
        Token::Identifier(s) => Token::Identifier(s.clone()),
        Token::Number(s) => Token::Number(s.clone()),
        Token::CurlyOpen => Token::CurlyOpen,
        Token::CurlyClose => Token::CurlyClose,
        Token::MapsTo => Token::MapsTo,
        Token::Comma => Token::Comma,
        Token::BraceOpen => Token::BraceOpen,
        Token::BraceClose => Token::BraceClose,
        Token::Minus => Token::Minus,
        Token::Skip => Token::Skip,
        Token::Colon => Token::Colon,
        Token::DoubleColon => Token::DoubleColon,
        Token::Dot => Token::Dot,
        Token::Star => Token::Star,
    }
}

/// Whether two tokens are equal: of the same kind and, for identifiers and
/// numbers, with the same text.
pub fn same_token(a: &Token, b: &Token) -> (r: bool)
    ensures
        r == (a@ == b@),
{
    match (a, b) {
        (Token::Identifier(x), Token::Identifier(y)) => *x == *y,
        (Token::Number(x), Token::Number(y)) => *x == *y,
        (Token::CurlyOpen, Token::CurlyOpen) => true,
        (Token::CurlyClose, Token::CurlyClose) => true,
        (Token::MapsTo, Token::MapsTo) => true,
        (Token::Comma, Token::Comma) => true,
        (Token::BraceOpen, Token::BraceOpen) => true,
        (Token::BraceClose, Token::BraceClose) => true,
        (Token::Minus, Token::Minus) => true,
        (Token::Skip, Token::Skip) => true,
        (Token::Colon, Token::Colon) => true,
        (Token::DoubleColon, Token::DoubleColon) => true,
        (Token::Dot, Token::Dot) => true,
        (Token::Star, Token::Star) => true,
        _ => false,
    }
}

/// Reads tokens one after another from a text.
pub struct Tokenizer {
    chars: Vec<char>,
    pos: usize,
    saved: Option<char>,
}

impl View for Tokenizer {
    type V = Seq<char>;

    /// The characters that are still to be read.
    closed spec fn view(&self) -> Seq<char> {
        match self.saved {
            Some(c) => seq![c] + self.chars@.skip(self.pos as int),
            None => self.chars@.skip(self.pos as int),
        }
    }
}

impl Tokenizer {
    #[verifier::type_invariant]
    spec fn inv(self) -> bool {
        self.pos <= self.chars@.len()
    }

    /// A tokenizer that reads `contents` from its start.
    pub fn from_file(contents: &str) -> (t: Tokenizer)
        ensures
            t@ == contents@,
    {
        broadcast use vstd::string::group_string_axioms;
        let mut chars: Vec<char> = Vec::new();
        for ch in it: contents.chars()
            invariant
                it.seq() == contents@,
                chars@ == it.seq().take(it.index() as int),
        {
            chars.push(ch);
        }
        assert(chars@.skip(0) =~= contents@);
        Tokenizer { chars, pos: 0, saved: None }
    }

    /// Takes the next character: the one put back, if any, else the next one
    /// of the text.
    fn next_char(&mut self) -> (r: Option<char>)
        ensures
            final(self).saved is None,
            old(self)@.len() == 0 ==> r is None && final(self)@ == old(self)@,
            old(self)@.len() > 0 ==> r == Some(old(self)@[0]) && final(self)@
                == old(self)@.drop_first(),
    {
        proof {
            use_type_invariant(&*self);
        }
        if let Some(ch) = self.saved {
            self.saved = None;
            assert(self.chars@.skip(self.pos as int) =~= old(self)@.drop_first());
            Some(ch)
        } else if self.pos < self.chars.len() {
            let ch = self.chars[self.pos];
            self.pos = self.pos + 1;
            assert(self.chars@.skip(self.pos as int) =~= old(self)@.drop_first());
            Some(ch)
        } else {
            None
        }
    }

    /// Puts `ch` back so that it is read again next.
    fn save_char(&mut self, ch: char)
        requires
            old(self).saved is None,
        ensures
            final(self)@ == seq![ch] + old(self)@,
    {
        proof {
            use_type_invariant(&*self);
        }
        self.saved = Some(ch);
    }

    /// The character that stops the next token from being read: the first
    /// character after the leading white space, when it cannot begin a token.
    pub fn blocking_char(&self) -> (r: Option<char>)
        ensures
            r is None <==> can_take_token(self@),
            r matches Some(c) ==> c == self@[leading_spaces(self@) as int],
    {
        proof {
            use_type_invariant(self);
        }
        let ghost s = self@;
        let mut off: usize = 0;
        if let Some(c) = self.saved {
            if !space(c) {
                proof {
                    lemma_leading_spaces_at(s, 0);
                }
                return if token_start(c) {
                    None
                } else {
                    Some(c)
                };
            }
            off = 1;
        }
        let mut i: usize = self.pos;
        while i < self.chars.len()
            invariant
                s == self@,
                self.pos <= i <= self.chars@.len(),
                off == (if self.saved is Some { 1int } else { 0int }),
                s.len() == off + self.chars@.len() - self.pos,
                forall|j: int| 0 <= j < off + i - self.pos ==> is_space(#[trigger] s[j]),
                forall|j: int| self.pos <= j < self.chars@.len() ==> s[off + j - self.pos] == self.chars@[j],
            decreases self.chars@.len() - i,
        {
            let c = self.chars[i];
            if !space(c) {
                proof {
                    lemma_leading_spaces_at(s, off + i - self.pos);
                }
                return if token_start(c) {
                    None
                } else {
                    Some(c)
                };
            }
            i = i + 1;
        }
        proof {
            lemma_leading_spaces_at(s, s.len() as int);
        }
        None
    }

    /// Reads the next token, skipping white space before it. Returns `None`
    /// when only white space is left. The character after the token is not
    /// consumed.
    pub fn next_token(&mut self) -> (r: Option<Token>)
        requires
            can_take_token(old(self)@),
        ensures
            opt_token_view(r) == take_token(old(self)@).0,
            final(self)@ == old(self)@.skip(take_token(old(self)@).1 as int),
    {
        let ghost s0 = self@;
        let ghost k: int = leading_spaces(s0) as int;
        proof {
            lemma_leading_spaces(s0);
        }
        let ghost mut c: int = 0;
        let mut last_token: Option<Token> = None;
        assert(s0.skip(0) =~= s0);
        loop
            invariant
                s0 == old(self)@,
                k == leading_spaces(s0),
                k <= s0.len(),
                forall|i: int| 0 <= i < k ==> is_space(#[trigger] s0[i]),
                k < s0.len() ==> !is_space(s0[k]),
                can_take_token(s0),
                0 <= c <= s0.len(),
                self@ == s0.skip(c),
                last_token is None ==> c <= k,
                last_token matches Some(t) ==> {
                    &&& k < c
                    &&& c - k - 1 <= lex(spec_create_token(s0[k]), s0.skip(k + 1)).1
                    &&& lex(t@, s0.skip(c)) == (
                        lex(spec_create_token(s0[k]), s0.skip(k + 1)).0,
                        (lex(spec_create_token(s0[k]), s0.skip(k + 1)).1 - (c - k - 1)) as nat,
                    )
                },
            decreases s0.len() - c,
        {
            let next_char = self.next_char();

            // end of the text
            if next_char.is_none() {
                assert(c == s0.len());
                return last_token;
            }
            let ch = next_char.unwrap();
            assert(ch == s0[c]);
            assert(s0.skip(c).drop_first() =~= s0.skip(c + 1));
            if let Some(last) = last_token {
                // does the character continue the token?
                let (merged_token, merged) = merge_token(last, ch);
                if merged {
                    // char was merged into current token
                    last_token = Some(merged_token);
                    proof {
                        c = c + 1;
                    }
                } else {
                    // return the last token, keep the character for the next one
                    self.save_char(ch);
                    assert(seq![ch] + s0.skip(c + 1) =~= s0.skip(c));
                    return Some(merged_token);
                }
            } else {
                // create new token from char
                let new_token = create_token(ch);
                let nt = new_token.unwrap();
                if !matches!(nt, Token::Skip) {
                    assert(c == k);
                    last_token = Some(nt);
                } else {
                    assert(c < k);
                }
                proof {
                    c = c + 1;
                }
            }
        }
    }
}

/// The tokens of `contents`, in order, or the first character at which no
/// token can begin.
pub fn tokenize(contents: &str) -> (r: Result<Vec<Token>, char>)
    ensures
        match spec_tokenize(contents@) {
            Ok(ts) => r matches Ok(v) && v@.map_values(|t: Token| t@) == ts,
            Err(c) => r == Err::<Vec<Token>, char>(c),
        },
{
    let mut tok = Tokenizer::from_file(contents);
    let mut tokens: Vec<Token> = Vec::new();
    loop
        invariant
            spec_tokenize(contents@) == match spec_tokenize(tok@) {
                Ok(rest) => Ok(tokens@.map_values(|t: Token| t@) + rest),
                Err(c) => Err(c),
            },
        decreases tok@.len(),
    {
        if let Some(c) = tok.blocking_char() {
            return Err(c);
        }
        let ghost before = tok@;
        let ghost old_tokens = tokens@;
        proof {
            lemma_take_token_len(before);
        }
        match tok.next_token() {
            Some(cur) => {
                tokens.push(cur);
                assert(tokens@.map_values(|t: Token| t@) =~= old_tokens.map_values(|t: Token| t@)
                    + seq![cur@]);
                proof {
                    if let Ok(rest) = spec_tokenize(tok@) {
                        assert(old_tokens.map_values(|t: Token| t@) + (seq![cur@] + rest)
                            =~= tokens@.map_values(|t: Token| t@) + rest);
                    }
                }
            },
            None => {
                assert(tokens@.map_values(|t: Token| t@) + seq![] =~= tokens@.map_values(
                    |t: Token| t@,
                ));
                return Ok(tokens);
            },
        }
    }
}

} // verus!
