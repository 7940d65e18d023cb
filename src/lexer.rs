use vstd::prelude::*;

use crate::classify::{
    ident_cont, ident_start, is_ascii_digit, is_alpha, is_digit, is_ident_cont, is_ident_start,
    is_letter, is_space, is_whitespace,
};
use crate::token::{KindView, LexError, Token, TokenKind, TokenView};

verus! {

/// Length of the run of identifier characters that starts at `i`.
pub open spec fn ident_run(s: Seq<char>, i: int) -> nat
    decreases s.len() - i,
{
    if 0 <= i < s.len() && ident_cont(s[i]) {
        1 + ident_run(s, i + 1)
    } else {
        0
    }
}

/// Length of the run of ASCII digits that starts at `i`.
pub open spec fn digit_run(s: Seq<char>, i: int) -> nat
    decreases s.len() - i,
{
    if 0 <= i < s.len() && is_digit(s[i]) {
        1 + digit_run(s, i + 1)
    } else {
        0
    }
}

/// Where an identifier that starts at `i` ends: one past its last character.
pub open spec fn ident_end(s: Seq<char>, i: int) -> int {
    i + 1 + ident_run(s, i + 1)
}

/// Where an integer literal that starts at `i` ends: one past its last digit.
pub open spec fn digit_end(s: Seq<char>, i: int) -> int {
    i + 1 + digit_run(s, i + 1)
}

/// The base-ten value of a sequence of ASCII digits.
pub open spec fn digits_value(d: Seq<char>) -> int
    decreases d.len(),
{
    if d.len() == 0 {
        0
    } else {
        digits_value(d.drop_last()) * 10 + (d.last() as u32 - '0' as u32)
    }
}

/// `t` put in front of the tokens of a successful result.
pub open spec fn prepend(t: TokenView, r: Result<Seq<TokenView>, LexError>) -> Result<
    Seq<TokenView>,
    LexError,
> {
    match r {
        Ok(ts) => Ok(seq![t] + ts),
        Err(e) => Err(e),
    }
}

/// The tokens `p` put in front of the tokens of a successful result.
pub open spec fn prefixed(p: Seq<TokenView>, r: Result<Seq<TokenView>, LexError>) -> Result<
    Seq<TokenView>,
    LexError,
> {
    match r {
        Ok(ts) => Ok(p + ts),
        Err(e) => Err(e),
    }
}

/// The outcome of lexing `s` from codepoint index `i` on.
pub open spec fn lex_from(s: Seq<char>, i: int) -> Result<Seq<TokenView>, LexError>
    decreases if i < s.len() { s.len() - i } else { 0 },
{
    if i < 0 || i >= s.len() {
        Ok(seq![TokenView { loc: s.len(), kind: KindView::Eof }])
    } else {
        let c = s[i];
        if is_space(c) {
            lex_from(s, i + 1)
        } else if c == '(' {
            prepend(TokenView { loc: i as nat, kind: KindView::LParen }, lex_from(s, i + 1))
        } else if c == ')' {
            prepend(TokenView { loc: i as nat, kind: KindView::RParen }, lex_from(s, i + 1))
        } else if ident_start(c) {
            let j = ident_end(s, i);
            prepend(TokenView { loc: i as nat, kind: KindView::Id(s.subrange(i, j)) }, lex_from(s, j))
        } else if is_digit(c) {
            let j = digit_end(s, i);
            let v = digits_value(s.subrange(i, j));
            if j < s.len() && is_letter(s[j]) {
                Err(LexError::InvalidChar(s[j]))
            } else if v > i64::MAX {
                Err(LexError::IntOutOfRange)
            } else {
                prepend(TokenView { loc: i as nat, kind: KindView::IntLit(v) }, lex_from(s, j))
            }
        } else {
            Err(LexError::InvalidChar(c))
        }
    }
}

/// The outcome of lexing the whole of `s`.
pub open spec fn lex_spec(s: Seq<char>) -> Result<Seq<TokenView>, LexError> {
    lex_from(s, 0)
}

pub open spec fn tokens_view(v: Seq<Token>) -> Seq<TokenView> {
    v.map_values(|t: Token| t@)
}

pub open spec fn result_view(r: Result<Vec<Token>, LexError>) -> Result<Seq<TokenView>, LexError> {
    match r {
        Ok(v) => Ok(tokens_view(v@)),
        Err(e) => Err(e),
    }
}

/// Relies on str::chars: the codepoints of the string, in order.
#[verifier::external_body]
fn chars_of(s: &str) -> (r: Vec<char>)
    ensures
        r@ == s@,
{
    s.chars().collect()
}

/// Relies on String's FromIterator<char>: the string of those codepoints, in order.
#[verifier::external_body]
fn string_from_chars(cs: Vec<char>) -> (r: String)
    ensures
        r@ == cs@,
{
    cs.into_iter().collect()
}

proof fn lemma_prefixed_push(p: Seq<TokenView>, t: TokenView, r: Result<Seq<TokenView>, LexError>)
    ensures
        prefixed(p, prepend(t, r)) == prefixed(p.push(t), r),
{
    if let Ok(ts) = r {
        assert(p + (seq![t] + ts) =~= p.push(t) + ts);
    }
}

proof fn lemma_tokens_view_push(v: Seq<Token>, t: Token)
    ensures
        tokens_view(v.push(t)) == tokens_view(v).push(t@),
{
    assert(tokens_view(v.push(t)) =~= tokens_view(v).push(t@));
}

/// Splits `source` into tokens, or reports the first error.
pub fn lex(source: &str) -> (r: Result<Vec<Token>, LexError>)
    ensures
        result_view(r) == lex_spec(source@),
{
    let src = chars_of(source);
    let ghost s = source@;
    let len = src.len();
    let mut pos: usize = 0;
    let mut ret: Vec<Token> = Vec::new();
    while pos < len
        invariant
            src@ == s,
            s == source@,
            len == s.len(),
            pos <= len,
            lex_spec(s) == prefixed(tokens_view(ret@), lex_from(s, pos as int)),
        decreases len - pos,
    {
        let c = src[pos];
        if is_whitespace(c) {
            pos += 1;
        } else if c == '(' {
            let t = Token::new(pos, TokenKind::LParen);
            proof {
                lemma_prefixed_push(tokens_view(ret@), t@, lex_from(s, pos + 1));
                lemma_tokens_view_push(ret@, t);
            }
            ret.push(t);
            pos += 1;
        } else if c == ')' {
            let t = Token::new(pos, TokenKind::RParen);
            proof {
                lemma_prefixed_push(tokens_view(ret@), t@, lex_from(s, pos + 1));
                lemma_tokens_view_push(ret@, t);
            }
            ret.push(t);
            pos += 1;
        } else if is_ident_start(c) {
            let start = pos;
            let mut text: Vec<char> = Vec::new();
            while pos < len && is_ident_cont(src[pos])
                invariant
                    src@ == s,
                    s == source@,
                    len == s.len(),
                    start < len,
                    ident_start(s[start as int]),
                    start <= pos <= len,
                    lex_spec(s) == prefixed(tokens_view(ret@), lex_from(s, start as int)),
                    pos + ident_run(s, pos as int) == start + 1 + ident_run(s, start + 1),
                    text@ == s.subrange(start as int, pos as int),
                decreases len - pos,
            {
                text.push(src[pos]);
                pos += 1;
                assert(text@ =~= s.subrange(start as int, pos as int));
            }
            let t = Token::new(start, TokenKind::Id(string_from_chars(text)));
            proof {
                lemma_prefixed_push(tokens_view(ret@), t@, lex_from(s, pos as int));
                lemma_tokens_view_push(ret@, t);
            }
            ret.push(t);
        } else if is_ascii_digit(c) {
            let start = pos;
            let mut value: i64 = 0;
            let mut too_big = false;
            while pos < len && is_ascii_digit(src[pos])
                invariant
                    src@ == s,
                    s == source@,
                    len == s.len(),
                    start < len,
                    is_digit(s[start as int]),
                    !ident_start(s[start as int]),
                    start <= pos <= len,
                    lex_spec(s) == prefixed(tokens_view(ret@), lex_from(s, start as int)),
                    pos + digit_run(s, pos as int) == start + 1 + digit_run(s, start + 1),
                    too_big == (digits_value(s.subrange(start as int, pos as int)) > i64::MAX),
                    !too_big ==> value == digits_value(s.subrange(start as int, pos as int)),
                    !too_big ==> value >= 0,
                decreases len - pos,
            {
                let d = src[pos];
                let ghost prev = s.subrange(start as int, pos as int);
                assert(s.subrange(start as int, pos + 1).drop_last() =~= prev);
                if !too_big {
                    match value.checked_mul(10) {
                        Some(m) => match m.checked_add((d as u32 - '0' as u32) as i64) {
                            Some(v) => {
                                value = v;
                            },
                            None => {
                                too_big = true;
                            },
                        },
                        None => {
                            too_big = true;
                        },
                    }
                }
                pos += 1;
            }
            assert(digit_run(s, pos as int) == 0);
            if pos < len && is_alpha(src[pos]) {
                assert(lex_from(s, start as int) == Err::<Seq<TokenView>, LexError>(
                    LexError::InvalidChar(s[pos as int]),
                ));
                return Err(LexError::InvalidChar(src[pos]));
            }
            if too_big {
                return Err(LexError::IntOutOfRange);
            }
            let t = Token::new(start, TokenKind::IntLit(value));
            proof {
                lemma_prefixed_push(tokens_view(ret@), t@, lex_from(s, pos as int));
                lemma_tokens_view_push(ret@, t);
            }
            ret.push(t);
        } else {
            assert(lex_from(s, pos as int) == Err::<Seq<TokenView>, LexError>(
                LexError::InvalidChar(c),
            ));
            return Err(LexError::InvalidChar(c));
        }
    }
    let t = Token::new(pos, TokenKind::Eof);
    proof {
        lemma_tokens_view_push(ret@, t);
        assert(tokens_view(ret@) + seq![t@] =~= tokens_view(ret@).push(t@));
    }
    ret.push(t);
    Ok(ret)
}

} // verus!
