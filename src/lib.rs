//! A lexer for a small S-expression language: parentheses, identifiers and
//! integer literals, each token tagged with the codepoint index where it starts.
//!
//! `lex` is proved to compute `lex_spec`, the mathematical description of the
//! token grammar; the public proof functions in `laws` state what every result
//! of it satisfies.

mod classify;
mod laws;
mod lexer;
mod token;

pub use classify::{
    alphabetic, ident_cont, ident_start, is_alpha, is_ascii_digit, is_digit, is_ident_cont,
    is_ident_start, is_letter, is_space, is_whitespace,
};
pub use laws::{
    all_space, anchored, eof_at, kinds, law_blank_input, law_respaced_round_trip,
    law_single_eof_at_end, law_tokens_anchored, locs_sorted, respaced, shifted, shifted_res,
    single_eof_at_end, token_text,
};
pub use lexer::{
    digit_end, digit_run, digits_value, ident_end, ident_run, lex, lex_from, lex_spec, prefixed,
    prepend, result_view, tokens_view,
};
pub use token::{KindView, LexError, Token, TokenKind, TokenView};
