//! What tokenizing a text keeps of it.
//!
//! Tokenizing drops the white space and nothing else, and writing the tokens
//! back out, separated by single spaces, gives a text that tokenizes to the
//! same tokens.
use vstd::prelude::*;

use crate::tokenizer::{
    SpecToken,
    can_take_token,
    is_known_char,
    is_space,
    leading_spaces,
    lemma_leading_spaces,
    lemma_leading_spaces_at,
    lemma_lex_len,
    lemma_take_token_len,
    lex,
    spec_create_token,
    spec_merge,
    spec_tokenize,
    starts_token,
    take_token,
    token_text,
};

verus! {

/// The texts of the tokens, one after the other.
pub open spec fn concat_texts(ts: Seq<SpecToken>) -> Seq<char>
    decreases ts.len(),
{
    if ts.len() == 0 {
        seq![]
    } else {
        token_text(ts[0]) + concat_texts(ts.drop_first())
    }
}

/// The texts of the tokens, each followed by one space.
pub open spec fn spaced_texts(ts: Seq<SpecToken>) -> Seq<char>
    decreases ts.len(),
{
    if ts.len() == 0 {
        seq![]
    } else {
        token_text(ts[0]) + seq![' '] + spaced_texts(ts.drop_first())
    }
}

/// The characters of `s` that are not white space, in order.
pub open spec fn strip_spaces(s: Seq<char>) -> Seq<char>
    decreases s.len(),
{
    if s.len() == 0 {
        seq![]
    } else {
        (if is_space(s[0]) {
            seq![]
        } else {
            seq![s[0]]
        }) + strip_spaces(s.drop_first())
    }
}

proof fn lemma_strip_add(a: Seq<char>, b: Seq<char>)
    ensures
        strip_spaces(a + b) == strip_spaces(a) + strip_spaces(b),
    decreases a.len(),
{
    if a.len() == 0 {
        assert(a + b =~= b);
    } else {
        assert((a + b).drop_first() =~= a.drop_first() + b);
        lemma_strip_add(a.drop_first(), b);
        assert(strip_spaces(a + b) =~= strip_spaces(a) + strip_spaces(b));
    }
}

proof fn lemma_strip_all_spaces(s: Seq<char>)
    requires
        forall|i: int| 0 <= i < s.len() ==> is_space(#[trigger] s[i]),
    ensures
        strip_spaces(s) == Seq::<char>::empty(),
    decreases s.len(),
{
    if s.len() > 0 {
        assert(forall|i: int| 0 <= i < s.drop_first().len() ==> #[trigger] s.drop_first()[i] == s[i + 1]);
        lemma_strip_all_spaces(s.drop_first());
        assert(strip_spaces(s) =~= Seq::<char>::empty());
    }
}

proof fn lemma_strip_no_spaces(s: Seq<char>)
    requires
        forall|i: int| 0 <= i < s.len() ==> !is_space(#[trigger] s[i]),
    ensures
        strip_spaces(s) == s,
    decreases s.len(),
{
    if s.len() > 0 {
        assert(forall|i: int| 0 <= i < s.drop_first().len() ==> #[trigger] s.drop_first()[i] == s[i + 1]);
        lemma_strip_no_spaces(s.drop_first());
        assert(strip_spaces(s) =~= s);
    }
}

/// Merging a character appends it to the token's text; white space never
/// merges.
proof fn lemma_merge_text(t: SpecToken, c: char)
    ensures
        spec_merge(t, c) matches Some(t2) ==> token_text(t2) == token_text(t).push(c),
        is_space(c) ==> spec_merge(t, c) is None,
{
    if let Some(t2) = spec_merge(t, c) {
        assert(token_text(t2) =~= token_text(t).push(c));
    }
}

/// A token that begins at a character has that character as its text; a
/// white-space character gives `Skip`.
proof fn lemma_create_text(c: char)
    ensures
        starts_token(c) ==> token_text(spec_create_token(c)) == seq![c] && spec_create_token(c)
            != SpecToken::Skip,
        is_space(c) ==> spec_create_token(c) == SpecToken::Skip,
{
}

/// The text of a grown token is the text it started with followed by the
/// characters it took, none of which is white space.
proof fn lemma_lex_text(t: SpecToken, x: Seq<char>)
    ensures
        token_text(lex(t, x).0) == token_text(t) + x.take(lex(t, x).1 as int),
        forall|j: int| 0 <= j < lex(t, x).1 ==> !is_space(#[trigger] x[j]),
        lex(t, x).1 <= x.len(),
    decreases x.len(),
{
    lemma_lex_len(t, x);
    if x.len() == 0 {
        assert(x.take(0) =~= Seq::<char>::empty());
        assert(token_text(t) + x.take(0) =~= token_text(t));
    } else {
        lemma_merge_text(t, x[0]);
        match spec_merge(t, x[0]) {
            Some(t2) => {
                lemma_lex_text(t2, x.drop_first());
                let n = lex(t2, x.drop_first()).1;
                assert(x.take(n + 1 as int) =~= seq![x[0]] + x.drop_first().take(n as int));
                assert(token_text(lex(t, x).0) =~= token_text(t) + x.take(lex(t, x).1 as int));
                assert forall|j: int| 0 <= j < lex(t, x).1 implies !is_space(#[trigger] x[j]) by {
                    if j > 0 {
                        assert(x[j] == x.drop_first()[j - 1]);
                    }
                }
            },
            None => {
                assert(x.take(0) =~= Seq::<char>::empty());
                assert(token_text(t) + x.take(0) =~= token_text(t));
            },
        }
    }
}

/// The text of the token read from `s`, and what is left of `s`.
proof fn lemma_take_token_text(s: Seq<char>)
    requires
        can_take_token(s),
        take_token(s).0 is Some,
    ensures
        ({
            let (t, n) = take_token(s);
            &&& strip_spaces(s.take(n as int)) == token_text(t->0)
            &&& token_text(t->0).len() > 0
            &&& !is_space(token_text(t->0)[0])
            &&& starts_token(token_text(t->0)[0])
        }),
{
    lemma_leading_spaces(s);
    let k = leading_spaces(s) as int;
    let x = s.skip(k + 1);
    let c = s[k];
    lemma_create_text(c);
    lemma_lex_text(spec_create_token(c), x);
    let (t, m) = lex(spec_create_token(c), x);
    let n = k + 1 + m;
    assert(s.take(n) =~= s.take(k) + (seq![c] + x.take(m as int)));
    lemma_strip_add(s.take(k), seq![c] + x.take(m as int));
    assert(forall|i: int| 0 <= i < k ==> #[trigger] s.take(k)[i] == s[i]);
    lemma_strip_all_spaces(s.take(k));
    assert forall|i: int| 0 <= i < (seq![c] + x.take(m as int)).len() implies !is_space(
        #[trigger] (seq![c] + x.take(m as int))[i],
    ) by {
        if i > 0 {
            assert((seq![c] + x.take(m as int))[i] == x[i - 1]);
        }
    }
    lemma_strip_no_spaces(seq![c] + x.take(m as int));
    assert(Seq::<char>::empty() + (seq![c] + x.take(m as int)) =~= seq![c] + x.take(m as int));
}

/// Tokenizing loses nothing but white space: the texts of the tokens of `s`,
/// put one after the other, are the characters of `s` that are not white
/// space.
pub proof fn law_tokens_cover_text(s: Seq<char>)
    requires
        spec_tokenize(s) is Ok,
    ensures
        concat_texts(spec_tokenize(s)->Ok_0) == strip_spaces(s),
    decreases s.len(),
{
    lemma_take_token_len(s);
    lemma_leading_spaces(s);
    let (t, n) = take_token(s);
    match t {
        None => {
            lemma_strip_all_spaces(s);
        },
        Some(tok) => {
            let rest = s.skip(n as int);
            law_tokens_cover_text(rest);
            lemma_take_token_text(s);
            assert(s =~= s.take(n as int) + rest);
            lemma_strip_add(s.take(n as int), rest);
            let ts = spec_tokenize(s)->Ok_0;
            assert(ts.drop_first() =~= spec_tokenize(rest)->Ok_0);
        },
    }
}

/// Re-reading a token's own characters followed by a space grows it to the
/// same token.
proof fn lemma_relex(t: SpecToken, x: Seq<char>, r: Seq<char>)
    ensures
        ({
            let n = lex(t, x).1;
            lex(t, x.take(n as int) + seq![' '] + r) == lex(t, x)
        }),
    decreases x.len(),
{
    let n = lex(t, x).1;
    let y = x.take(n as int) + seq![' '] + r;
    lemma_merge_text(t, ' ');
    if x.len() > 0 {
        if let Some(t2) = spec_merge(t, x[0]) {
            lemma_lex_len(t2, x.drop_first());
            lemma_relex(t2, x.drop_first(), r);
            let m = lex(t2, x.drop_first()).1;
            assert(y[0] == x[0]);
            assert(y.drop_first() =~= x.drop_first().take(m as int) + seq![' '] + r);
        } else {
            assert(y[0] == ' ');
        }
    } else {
        assert(y[0] == ' ');
    }
}

/// One leading space does not change the tokens of a text.
proof fn lemma_tokenize_space(x: Seq<char>)
    ensures
        spec_tokenize(seq![' '] + x) == spec_tokenize(x),
{
    let s = seq![' '] + x;
    assert(s.drop_first() =~= x);
    assert(leading_spaces(s) == 1 + leading_spaces(x));
    let k = leading_spaces(x) as int;
    lemma_leading_spaces(x);
    if k < x.len() {
        assert(s[k + 1] == x[k]);
        assert(s.skip(k + 2) =~= x.skip(k + 1));
        let n = take_token(x).1 as int;
        lemma_take_token_len(x);
        assert(s.skip(n + 1) =~= x.skip(n));
    }
}

/// Writing the tokens of a text back out, each followed by a space, gives a
/// text with the same tokens.
pub proof fn law_retokenize_spaced(s: Seq<char>)
    requires
        spec_tokenize(s) is Ok,
    ensures
        spec_tokenize(spaced_texts(spec_tokenize(s)->Ok_0)) == spec_tokenize(s),
    decreases s.len(),
{
    lemma_take_token_len(s);
    lemma_leading_spaces(s);
    let ts = spec_tokenize(s)->Ok_0;
    let (t, n) = take_token(s);
    match t {
        None => {
            assert(spaced_texts(ts) =~= Seq::<char>::empty());
            lemma_leading_spaces_at(Seq::<char>::empty(), 0);
        },
        Some(tok) => {
            let rest = s.skip(n as int);
            law_retokenize_spaced(rest);
            let ts2 = spec_tokenize(rest)->Ok_0;
            assert(ts.drop_first() =~= ts2);
            let r = spaced_texts(ts2);
            let k = leading_spaces(s) as int;
            let c = s[k];
            let x = s.skip(k + 1);
            lemma_create_text(c);
            lemma_lex_text(spec_create_token(c), x);
            let m = lex(spec_create_token(c), x).1;
            let text = token_text(tok);
            assert(text =~= seq![c] + x.take(m as int));
            let s2 = text + seq![' '] + r;
            assert(spaced_texts(ts) == s2);
            // the first token of `s2` is `tok` again
            lemma_leading_spaces_at(s2, 0);
            assert(s2.skip(1) =~= x.take(m as int) + seq![' '] + r);
            lemma_relex(spec_create_token(c), x, r);
            assert(take_token(s2) == (Some(tok), (1 + m) as nat));
            assert(s2.skip(1 + m as int) =~= seq![' '] + r);
            lemma_tokenize_space(r);
            lemma_take_token_len(s2);
        },
    }
}

/// No token of a text is `Skip`, and every token stands for at least one
/// character.
pub proof fn law_tokens_not_empty(s: Seq<char>)
    requires
        spec_tokenize(s) is Ok,
    ensures
        forall|i: int|
            0 <= i < spec_tokenize(s)->Ok_0.len() ==> #[trigger] spec_tokenize(s)->Ok_0[i]
                != SpecToken::Skip && token_text(spec_tokenize(s)->Ok_0[i]).len() > 0,
    decreases s.len(),
{
    lemma_take_token_len(s);
    let (t, n) = take_token(s);
    if let Some(tok) = t {
        let rest = s.skip(n as int);
        law_tokens_not_empty(rest);
        lemma_take_token_text(s);
        let ts = spec_tokenize(s)->Ok_0;
        assert forall|i: int| 0 <= i < ts.len() implies #[trigger] ts[i] != SpecToken::Skip
            && token_text(ts[i]).len() > 0 by {
            if i > 0 {
                assert(ts[i] == spec_tokenize(rest)->Ok_0[i - 1]);
            }
        }
    }
}

/// Every character is one that the tokenizer knows, or a `>` right after a
/// `-` (the two make the arrow `->`).
pub open spec fn known_text(s: Seq<char>) -> bool {
    forall|i: int|
        0 <= i < s.len() ==> is_known_char(#[trigger] s[i]) || (s[i] == '>' && i > 0 && s[i - 1]
            == '-')
}

/// A token stops growing only at a character that does not merge into it,
/// and it never takes a `-`.
proof fn lemma_lex_stop(t: SpecToken, x: Seq<char>)
    ensures
        lex(t, x).1 < x.len() ==> spec_merge(lex(t, x).0, x[lex(t, x).1 as int]) is None,
        lex(t, x).1 == 0 ==> lex(t, x).0 == t,
        forall|j: int| 0 <= j < lex(t, x).1 ==> #[trigger] x[j] != '-',
    decreases x.len(),
{
    if x.len() > 0 {
        if let Some(t2) = spec_merge(t, x[0]) {
            lemma_lex_stop(t2, x.drop_first());
            lemma_lex_len(t, x);
            assert forall|j: int| 0 <= j < lex(t, x).1 implies #[trigger] x[j] != '-' by {
                if j > 0 {
                    assert(x[j] == x.drop_first()[j - 1]);
                }
            }
            lemma_lex_len(t2, x.drop_first());
            if lex(t, x).1 < x.len() {
                assert(x[lex(t, x).1 as int] == x.drop_first()[lex(t2, x.drop_first()).1 as int]);
            }
        }
    }
}

/// A text whose characters the tokenizer knows (with `>` only in `->`) is
/// read to the end without error; its tokens cover all its characters but
/// the white space, and none of them is empty.
pub proof fn law_known_text_tokenizes(s: Seq<char>)
    requires
        known_text(s),
    ensures
        spec_tokenize(s) is Ok,
        concat_texts(spec_tokenize(s)->Ok_0) == strip_spaces(s),
        forall|i: int|
            0 <= i < spec_tokenize(s)->Ok_0.len() ==> #[trigger] spec_tokenize(s)->Ok_0[i]
                != SpecToken::Skip && token_text(spec_tokenize(s)->Ok_0[i]).len() > 0,
    decreases s.len(),
{
    lemma_leading_spaces(s);
    lemma_take_token_len(s);
    let k = leading_spaces(s) as int;
    if k < s.len() {
        assert(is_known_char(s[k]) || (s[k] == '>' && k > 0 && s[k - 1] == '-'));
        if k > 0 {
            assert(is_space(s[k - 1]));
        }
        assert(can_take_token(s));
        let x = s.skip(k + 1);
        let c = s[k];
        let (t, m) = lex(spec_create_token(c), x);
        lemma_lex_stop(spec_create_token(c), x);
        lemma_lex_len(spec_create_token(c), x);
        let n = k + 1 + m;
        let rest = s.skip(n);
        assert forall|i: int| 0 <= i < rest.len() implies is_known_char(#[trigger] rest[i]) || (
        rest[i] == '>' && i > 0 && rest[i - 1] == '-') by {
            assert(rest[i] == s[n + i]);
            if i > 0 {
                assert(rest[i - 1] == s[n + i - 1]);
            } else if !is_known_char(rest[0]) {
                assert(s[n] == '>' && s[n - 1] == '-');
                assert(x[m as int] == s[n]);
                if m == 0 {
                    assert(spec_create_token(c) == SpecToken::Minus);
                    assert(spec_merge(SpecToken::Minus, '>') is Some);
                } else {
                    assert(x[m - 1] == s[n - 1]);
                }
            }
        }
        law_known_text_tokenizes(rest);
    } else {
        assert(can_take_token(s));
    }
    law_tokens_cover_text(s);
    law_tokens_not_empty(s);
}

/// Letters of either case, digits and `_` continue an identifier; digits and
/// `.` continue a number; `-` followed by `>` is the arrow, `-` followed by a
/// digit a negative number, and `:` followed by `:` the separator `::`.
/// White space ends every token.
pub proof fn law_merge_table(s: Seq<char>, c: char)
    ensures
        ('a' <= c <= 'z' || 'A' <= c <= 'Z' || '0' <= c <= '9' || c == '_') ==> spec_merge(
            SpecToken::Identifier(s),
            c,
        ) == Some(SpecToken::Identifier(s.push(c))),
        ('0' <= c <= '9' || c == '.') ==> spec_merge(SpecToken::Number(s), c) == Some(
            SpecToken::Number(s.push(c)),
        ),
        spec_merge(SpecToken::Minus, '>') == Some(SpecToken::MapsTo),
        '0' <= c <= '9' ==> spec_merge(SpecToken::Minus, c) == Some(SpecToken::Number(seq!['-', c])),
        spec_merge(SpecToken::Colon, ':') == Some(SpecToken::DoubleColon),
        (c == ' ' || c == '\n' || c == '\r' || c == '\t') ==> spec_merge(SpecToken::Identifier(s), c)
            is None && spec_merge(SpecToken::Number(s), c) is None && spec_merge(SpecToken::Minus, c)
            is None && spec_merge(SpecToken::Colon, c) is None,
{
}

proof fn lemma_lex_identifier_run(s: Seq<char>, w: Seq<char>, r: Seq<char>)
    requires
        forall|i: int|
            0 <= i < w.len() ==> ('a' <= #[trigger] w[i] <= 'z' || 'A' <= w[i] <= 'Z' || '0' <= w[i]
                <= '9' || w[i] == '_'),
        r.len() == 0 || r[0] == ' ' || r[0] == '\n' || r[0] == '\r' || r[0] == '\t',
    ensures
        lex(SpecToken::Identifier(s), w + r) == (SpecToken::Identifier(s + w), w.len()),
    decreases w.len(),
{
    if w.len() == 0 {
        assert(w + r =~= r);
        assert(s + w =~= s);
    } else {
        assert((w + r)[0] == w[0]);
        assert((w + r).drop_first() =~= w.drop_first() + r);
        lemma_lex_identifier_run(s.push(w[0]), w.drop_first(), r);
        assert(s.push(w[0]) + w.drop_first() =~= s + w);
    }
}

/// A word of letters (of either case), digits and `_` that starts with a
/// letter or `_` and ends at white space or at the end of the text is read
/// as one identifier token, and the white space after it is left.
pub proof fn law_identifier_word(w: Seq<char>, r: Seq<char>)
    requires
        w.len() > 0,
        'a' <= w[0] <= 'z' || 'A' <= w[0] <= 'Z' || w[0] == '_',
        forall|i: int|
            0 <= i < w.len() ==> ('a' <= #[trigger] w[i] <= 'z' || 'A' <= w[i] <= 'Z' || '0' <= w[i]
                <= '9' || w[i] == '_'),
        r.len() == 0 || r[0] == ' ' || r[0] == '\n' || r[0] == '\r' || r[0] == '\t',
    ensures
        take_token(w + r) == (Some(SpecToken::Identifier(w)), w.len()),
{
    let s = w + r;
    lemma_leading_spaces_at(s, 0);
    assert(s[0] == w[0]);
    let rest = w.drop_first();
    assert forall|i: int| 0 <= i < rest.len() implies ('a' <= #[trigger] rest[i] <= 'z' || 'A'
        <= rest[i] <= 'Z' || '0' <= rest[i] <= '9' || rest[i] == '_') by {
        assert(rest[i] == w[i + 1]);
    }
    lemma_lex_identifier_run(seq![w[0]], rest, r);
    assert(s.skip(1) =~= rest + r);
    assert(seq![w[0]] + rest =~= w);
}

} // verus!
