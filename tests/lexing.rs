use lexing_toy::{lex, LexError, Token, TokenKind};

fn id(s: &str) -> TokenKind {
    TokenKind::Id(s.to_string())
}

fn locs_and_kinds(tokens: &[Token]) -> Vec<(usize, TokenKind)> {
    tokens.iter().map(|t| (t.loc, t.kind.clone())).collect()
}

#[test]
fn token_new_keeps_fields() {
    let t = Token::new(4, TokenKind::IntLit(-2));
    assert_eq!(t.loc, 4);
    assert_eq!(t.kind, TokenKind::IntLit(-2));
}

#[test]
fn empty_input_is_only_eof() {
    let toks = lex("").unwrap();
    assert_eq!(locs_and_kinds(&toks), vec![(0, TokenKind::Eof)]);
}

#[test]
fn blank_input_is_only_eof_at_length() {
    let toks = lex(" \t\n  ").unwrap();
    assert_eq!(locs_and_kinds(&toks), vec![(5, TokenKind::Eof)]);
}

#[test]
fn paren_identifier_integer() {
    let toks = lex("(foo 123)").unwrap();
    assert_eq!(
        locs_and_kinds(&toks),
        vec![
            (0, TokenKind::LParen),
            (1, id("foo")),
            (5, TokenKind::IntLit(123)),
            (8, TokenKind::RParen),
            (9, TokenKind::Eof),
        ]
    );
}

#[test]
fn digit_followed_by_letter_fails() {
    assert_eq!(lex("_a1 2b").unwrap_err(), LexError::InvalidChar('b'));
}

#[test]
fn integer_too_large() {
    assert_eq!(lex("99999999999999999999").unwrap_err(), LexError::IntOutOfRange);
}

#[test]
fn invalid_character() {
    assert_eq!(lex("@").unwrap_err(), LexError::InvalidChar('@'));
}

#[test]
fn largest_integer_fits() {
    let toks = lex("9223372036854775807").unwrap();
    assert_eq!(
        locs_and_kinds(&toks),
        vec![(0, TokenKind::IntLit(i64::MAX)), (19, TokenKind::Eof)]
    );
}

#[test]
fn one_past_largest_integer_fails() {
    assert_eq!(lex("9223372036854775808").unwrap_err(), LexError::IntOutOfRange);
}

#[test]
fn letter_after_digits_wins_over_range() {
    assert_eq!(lex("99999999999999999999x").unwrap_err(), LexError::InvalidChar('x'));
}

#[test]
fn leading_zeros_are_read() {
    let toks = lex("007").unwrap();
    assert_eq!(locs_and_kinds(&toks), vec![(0, TokenKind::IntLit(7)), (3, TokenKind::Eof)]);
}

#[test]
fn identifier_may_hold_digits() {
    let toks = lex("foo123 _x").unwrap();
    assert_eq!(
        locs_and_kinds(&toks),
        vec![(0, id("foo123")), (7, id("_x")), (9, TokenKind::Eof)]
    );
}

#[test]
fn digits_then_paren() {
    let toks = lex("12)").unwrap();
    assert_eq!(
        locs_and_kinds(&toks),
        vec![(0, TokenKind::IntLit(12)), (2, TokenKind::RParen), (3, TokenKind::Eof)]
    );
}

#[test]
fn unicode_letters_start_identifiers() {
    let toks = lex("é 日本 x").unwrap();
    assert_eq!(
        locs_and_kinds(&toks),
        vec![(0, id("é")), (2, id("日本")), (5, id("x")), (6, TokenKind::Eof)]
    );
}

#[test]
fn positions_count_codepoints_not_bytes() {
    let toks = lex("ü(").unwrap();
    assert_eq!(
        locs_and_kinds(&toks),
        vec![(0, id("ü")), (1, TokenKind::LParen), (2, TokenKind::Eof)]
    );
}

#[test]
fn unicode_letter_after_digits_fails() {
    assert_eq!(lex("3π").unwrap_err(), LexError::InvalidChar('π'));
}

#[test]
fn non_alphabetic_symbol_fails() {
    assert_eq!(lex("a 💝").unwrap_err(), LexError::InvalidChar('💝'));
}

#[test]
fn carriage_return_is_not_whitespace() {
    assert_eq!(lex("a\r\nb").unwrap_err(), LexError::InvalidChar('\r'));
}

#[test]
fn unicode_digit_is_not_a_digit() {
    assert_eq!(lex("٣").unwrap_err(), LexError::InvalidChar('٣'));
}

#[test]
fn first_error_is_reported() {
    assert_eq!(lex("(a @ 1x)").unwrap_err(), LexError::InvalidChar('@'));
}

#[test]
fn eof_is_last_and_single() {
    let toks = lex("((a b) 42\n)").unwrap();
    let last = toks.last().unwrap();
    assert_eq!(last.kind, TokenKind::Eof);
    assert_eq!(last.loc, "((a b) 42\n)".chars().count());
    assert_eq!(toks.iter().filter(|t| t.kind == TokenKind::Eof).count(), 1);
}

#[test]
fn positions_point_at_first_characters() {
    let src = "  (ab\t12 ) c";
    let chars: Vec<char> = src.chars().collect();
    let toks = lex(src).unwrap();
    for w in toks.windows(2) {
        assert!(w[0].loc <= w[1].loc);
    }
    for t in &toks {
        match &t.kind {
            TokenKind::Eof => assert_eq!(t.loc, chars.len()),
            TokenKind::LParen => assert_eq!(chars[t.loc], '('),
            TokenKind::RParen => assert_eq!(chars[t.loc], ')'),
            TokenKind::Id(s) => {
                let n = s.chars().count();
                assert_eq!(chars[t.loc..t.loc + n].iter().collect::<String>(), *s);
            }
            TokenKind::IntLit(_) => assert!(chars[t.loc].is_ascii_digit()),
        }
    }
}

#[test]
fn respaced_text_lexes_to_same_kinds() {
    let src = "(foo  007\n(bar_9))";
    let chars: Vec<char> = src.chars().collect();
    let toks = lex(src).unwrap();
    let mut texts: Vec<String> = Vec::new();
    for t in &toks {
        let text = match &t.kind {
            TokenKind::Eof => String::new(),
            TokenKind::LParen => "(".to_string(),
            TokenKind::RParen => ")".to_string(),
            TokenKind::Id(s) => s.clone(),
            TokenKind::IntLit(_) => {
                let mut end = t.loc;
                while end < chars.len() && chars[end].is_ascii_digit() {
                    end += 1;
                }
                chars[t.loc..end].iter().collect()
            }
        };
        texts.push(text);
    }
    let respaced = texts.join(" ");
    assert_eq!(respaced, "( foo 007 ( bar_9 ) ) ");
    let again = lex(&respaced).unwrap();
    let kinds: Vec<TokenKind> = toks.iter().map(|t| t.kind.clone()).collect();
    let kinds_again: Vec<TokenKind> = again.iter().map(|t| t.kind.clone()).collect();
    assert_eq!(kinds, kinds_again);
}
