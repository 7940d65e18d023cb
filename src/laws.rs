use vstd::prelude::*;

use crate::classify::{ident_cont, ident_start, is_digit, is_space};
use crate::lexer::{
    digit_end, digit_run, digits_value, ident_end, ident_run, lex_from, lex_spec, prepend,
};
use crate::token::{KindView, LexError, TokenView};

verus! {

/// The end-of-input token of `s`.
pub open spec fn eof_at(s: Seq<char>) -> TokenView {
    TokenView { loc: s.len(), kind: KindView::Eof }
}

pub open spec fn all_space(s: Seq<char>) -> bool {
    forall|k: int| 0 <= k < s.len() ==> is_space(#[trigger] s[k])
}

/// `ts` is nonempty, ends with the end-of-input token of `s`, and has no other.
pub open spec fn single_eof_at_end(s: Seq<char>, ts: Seq<TokenView>) -> bool {
    &&& ts.len() > 0
    &&& ts.last() == eof_at(s)
    &&& forall|k: int| 0 <= k < ts.len() - 1 ==> (#[trigger] ts[k]).kind != KindView::Eof
}

/// The token `t` starts at its `loc` in `s`: that codepoint is its first character.
pub open spec fn anchored(s: Seq<char>, t: TokenView) -> bool {
    match t.kind {
        KindView::Eof => t.loc == s.len(),
        KindView::LParen => t.loc < s.len() && s[t.loc as int] == '(',
        KindView::RParen => t.loc < s.len() && s[t.loc as int] == ')',
        KindView::Id(x) => {
            &&& x.len() > 0
            &&& t.loc + x.len() <= s.len()
            &&& s.subrange(t.loc as int, (t.loc + x.len()) as int) == x
        },
        KindView::IntLit(v) => {
            &&& t.loc < s.len()
            &&& is_digit(s[t.loc as int])
            &&& v == digits_value(s.subrange(t.loc as int, digit_end(s, t.loc as int)))
        },
    }
}

pub open spec fn locs_sorted(ts: Seq<TokenView>) -> bool {
    forall|a: int, b: int| 0 <= a < b < ts.len() ==> #[trigger] ts[a].loc <= #[trigger] ts[b].loc
}

/// The kinds of `ts`, in order, without their positions.
pub open spec fn kinds(ts: Seq<TokenView>) -> Seq<KindView> {
    ts.map_values(|t: TokenView| t.kind)
}

/// The text in `s` that the token `t` was read from; empty for the end of input.
pub open spec fn token_text(s: Seq<char>, t: TokenView) -> Seq<char> {
    match t.kind {
        KindView::Eof => seq![],
        KindView::LParen => seq!['('],
        KindView::RParen => seq![')'],
        KindView::Id(x) => x,
        KindView::IntLit(_) => s.subrange(t.loc as int, digit_end(s, t.loc as int)),
    }
}

/// The texts of `ts`, in order, separated by single spaces.
pub open spec fn respaced(s: Seq<char>, ts: Seq<TokenView>) -> Seq<char>
    decreases ts.len(),
{
    if ts.len() == 0 {
        seq![]
    } else if ts.len() == 1 {
        token_text(s, ts[0])
    } else {
        token_text(s, ts[0]) + seq![' '] + respaced(s, ts.drop_first())
    }
}

pub open spec fn shifted(ts: Seq<TokenView>, n: nat) -> Seq<TokenView> {
    ts.map_values(|t: TokenView| TokenView { loc: t.loc + n, kind: t.kind })
}

pub open spec fn shifted_res(r: Result<Seq<TokenView>, LexError>, n: nat) -> Result<
    Seq<TokenView>,
    LexError,
> {
    match r {
        Ok(ts) => Ok(shifted(ts, n)),
        Err(e) => Err(e),
    }
}

proof fn lemma_blank_from(s: Seq<char>, i: int)
    requires
        0 <= i,
        forall|k: int| i <= k < s.len() ==> is_space(#[trigger] s[k]),
    ensures
        lex_from(s, i) == Ok::<Seq<TokenView>, LexError>(seq![eof_at(s)]),
    decreases s.len() - i,
{
    if i < s.len() {
        lemma_blank_from(s, i + 1);
    }
}

/// Input made only of spaces, tabs and newlines, the empty input included,
/// lexes to the end-of-input token alone, placed at the input's length.
pub proof fn law_blank_input(s: Seq<char>)
    requires
        all_space(s),
    ensures
        lex_spec(s) == Ok::<Seq<TokenView>, LexError>(seq![eof_at(s)]),
{
    lemma_blank_from(s, 0);
}

proof fn lemma_ident_run(s: Seq<char>, i: int)
    requires
        0 <= i,
    ensures
        ident_run(s, i) == 0 || i + ident_run(s, i) <= s.len(),
        forall|m: int| i <= m < i + ident_run(s, i) ==> ident_cont(#[trigger] s[m]),
    decreases s.len() - i,
{
    if 0 <= i < s.len() && ident_cont(s[i]) {
        lemma_ident_run(s, i + 1);
    }
}

proof fn lemma_digit_run(s: Seq<char>, i: int)
    requires
        0 <= i,
    ensures
        digit_run(s, i) == 0 || i + digit_run(s, i) <= s.len(),
        forall|m: int| i <= m < i + digit_run(s, i) ==> is_digit(#[trigger] s[m]),
    decreases s.len() - i,
{
    if 0 <= i < s.len() && is_digit(s[i]) {
        lemma_digit_run(s, i + 1);
    }
}

proof fn lemma_ident_run_exact(w: Seq<char>, i: int, e: int)
    requires
        0 <= i <= e <= w.len(),
        forall|m: int| i <= m < e ==> ident_cont(#[trigger] w[m]),
        e == w.len() || !ident_cont(w[e]),
    ensures
        ident_run(w, i) == e - i,
    decreases e - i,
{
    if i < e {
        lemma_ident_run_exact(w, i + 1, e);
    }
}

proof fn lemma_digit_run_exact(w: Seq<char>, i: int, e: int)
    requires
        0 <= i <= e <= w.len(),
        forall|m: int| i <= m < e ==> is_digit(#[trigger] w[m]),
        e == w.len() || !is_digit(w[e]),
    ensures
        digit_run(w, i) == e - i,
    decreases e - i,
{
    if i < e {
        lemma_digit_run_exact(w, i + 1, e);
    }
}

proof fn lemma_eof_from(s: Seq<char>, i: int)
    requires
        0 <= i,
    ensures
        lex_from(s, i) is Ok ==> single_eof_at_end(s, lex_from(s, i)->Ok_0),
    decreases s.len() - i,
{
    if i < s.len() {
        let c = s[i];
        if is_space(c) || c == '(' || c == ')' {
            lemma_eof_from(s, i + 1);
        } else if ident_start(c) {
            lemma_ident_run(s, i + 1);
            lemma_eof_from(s, i + 1 + ident_run(s, i + 1));
        } else if is_digit(c) {
            lemma_digit_run(s, i + 1);
            lemma_eof_from(s, i + 1 + digit_run(s, i + 1));
        }
        if lex_from(s, i) is Ok && !is_space(c) {
            let ts = lex_from(s, i)->Ok_0;
            assert forall|k: int| 0 <= k < ts.len() - 1 implies (#[trigger] ts[k]).kind
                != KindView::Eof by {
                if k > 0 {
                    assert(ts[k] == ts.drop_first()[k - 1]);
                }
            }
        }
    }
}

/// A successful result ends with the end-of-input token, placed at the
/// input's length, and holds no other end-of-input token.
pub proof fn law_single_eof_at_end(s: Seq<char>)
    ensures
        lex_spec(s) is Ok ==> single_eof_at_end(s, lex_spec(s)->Ok_0),
{
    lemma_eof_from(s, 0);
}

proof fn lemma_anchored_from(s: Seq<char>, i: int)
    requires
        0 <= i <= s.len(),
    ensures
        lex_from(s, i) is Ok ==> {
            let ts = lex_from(s, i)->Ok_0;
            &&& locs_sorted(ts)
            &&& forall|k: int| 0 <= k < ts.len() ==> anchored(s, #[trigger] ts[k])
            &&& forall|k: int| 0 <= k < ts.len() ==> i <= (#[trigger] ts[k]).loc
        },
    decreases s.len() - i,
{
    if i < s.len() {
        let c = s[i];
        let j = if is_space(c) || c == '(' || c == ')' {
            i + 1
        } else if ident_start(c) {
            lemma_ident_run(s, i + 1);
            i + 1 + ident_run(s, i + 1)
        } else {
            lemma_digit_run(s, i + 1);
            i + 1 + digit_run(s, i + 1)
        };
        if is_space(c) || c == '(' || c == ')' || ident_start(c) || is_digit(c) {
            lemma_anchored_from(s, j);
        }
        if lex_from(s, i) is Ok && !is_space(c) {
            let ts = lex_from(s, i)->Ok_0;
            let rest = lex_from(s, j)->Ok_0;
            assert(ts =~= seq![ts[0]] + rest);
            assert(anchored(s, ts[0])) by {
                if ident_start(c) {
                    assert(s.subrange(i, j).len() == j - i);
                }
            }
            assert forall|k: int| 0 <= k < ts.len() implies anchored(s, #[trigger] ts[k])
                && i <= ts[k].loc by {
                if k > 0 {
                    assert(ts[k] == rest[k - 1]);
                }
            }
            assert forall|a: int, b: int| 0 <= a < b < ts.len() implies #[trigger] ts[a].loc
                <= #[trigger] ts[b].loc by {
                assert(ts[b] == rest[b - 1]);
                if a > 0 {
                    assert(ts[a] == rest[a - 1]);
                }
            }
        }
    }
}

/// In a successful result the positions never decrease, and each token's
/// position is the codepoint index of its first character in the input.
pub proof fn law_tokens_anchored(s: Seq<char>)
    ensures
        lex_spec(s) is Ok ==> {
            let ts = lex_spec(s)->Ok_0;
            &&& locs_sorted(ts)
            &&& forall|k: int| 0 <= k < ts.len() ==> anchored(s, #[trigger] ts[k])
        },
{
    lemma_anchored_from(s, 0);
}

proof fn lemma_runs_shift(p: Seq<char>, v: Seq<char>, j: int)
    requires
        0 <= j,
    ensures
        ident_run(p + v, p.len() + j) == ident_run(v, j),
        digit_run(p + v, p.len() + j) == digit_run(v, j),
    decreases v.len() - j,
{
    if j < v.len() {
        assert((p + v)[p.len() + j] == v[j]);
        lemma_runs_shift(p, v, j + 1);
    }
}

proof fn lemma_prepend_shift(t: TokenView, r: Result<Seq<TokenView>, LexError>, n: nat)
    ensures
        shifted_res(prepend(t, r), n) == prepend(
            TokenView { loc: t.loc + n, kind: t.kind },
            shifted_res(r, n),
        ),
{
    if let Ok(ts) = r {
        assert(shifted(seq![t] + ts, n) =~= seq![TokenView { loc: t.loc + n, kind: t.kind }]
            + shifted(ts, n));
    }
}

/// Lexing behind a prefix gives the same tokens, moved by the prefix's length.
proof fn lemma_lex_shift(p: Seq<char>, v: Seq<char>, j: int)
    requires
        0 <= j,
    ensures
        lex_from(p + v, p.len() + j) == shifted_res(lex_from(v, j), p.len()),
    decreases v.len() - j,
{
    let w = p + v;
    let n = p.len();
    if j >= v.len() {
        assert(shifted(seq![eof_at(v)], n) =~= seq![eof_at(w)]);
    } else {
        let c = v[j];
        assert(w[n + j] == c);
        if is_space(c) {
            lemma_lex_shift(p, v, j + 1);
        } else if c == '(' {
            lemma_lex_shift(p, v, j + 1);
            lemma_prepend_shift(
                TokenView { loc: j as nat, kind: KindView::LParen },
                lex_from(v, j + 1),
                n,
            );
        } else if c == ')' {
            lemma_lex_shift(p, v, j + 1);
            lemma_prepend_shift(
                TokenView { loc: j as nat, kind: KindView::RParen },
                lex_from(v, j + 1),
                n,
            );
        } else if ident_start(c) {
            lemma_runs_shift(p, v, j + 1);
            lemma_ident_run(v, j + 1);
            let e = ident_end(v, j);
            assert(w.subrange(n + j, n + e) =~= v.subrange(j, e));
            lemma_lex_shift(p, v, e);
            lemma_prepend_shift(
                TokenView { loc: j as nat, kind: KindView::Id(v.subrange(j, e)) },
                lex_from(v, e),
                n,
            );
        } else if is_digit(c) {
            lemma_runs_shift(p, v, j + 1);
            lemma_digit_run(v, j + 1);
            let e = digit_end(v, j);
            assert(w.subrange(n + j, n + e) =~= v.subrange(j, e));
            if e < v.len() {
                assert(w[n + e] == v[e]);
            }
            lemma_lex_shift(p, v, e);
            lemma_prepend_shift(
                TokenView { loc: j as nat, kind: KindView::IntLit(digits_value(v.subrange(j, e))) },
                lex_from(v, e),
                n,
            );
        }
    }
}

/// What follows a token's text and one space lexes as `rest` does, moved.
proof fn lemma_after_text(x: Seq<char>, rest: Seq<char>)
    ensures
        lex_from(x + seq![' '] + rest, x.len() as int) == shifted_res(
            lex_from(rest, 0),
            x.len() + 1,
        ),
{
    let p = x + seq![' '];
    assert(x + seq![' '] + rest == p + rest);
    assert((p + rest)[x.len() as int] == ' ');
    lemma_lex_shift(p, rest, 0);
}

/// A token read again from its own text, with the rest lexed as before.
proof fn lemma_finish(t: TokenView, u: TokenView, ts: Seq<TokenView>, r: Result<Seq<TokenView>, LexError>, n: nat)
    requires
        r is Ok,
        kinds(r->Ok_0) == kinds(ts),
        u.kind == t.kind,
    ensures
        prepend(u, shifted_res(r, n)) is Ok,
        kinds(prepend(u, shifted_res(r, n))->Ok_0) == kinds(seq![t] + ts),
{
    let ts2 = r->Ok_0;
    assert(kinds(shifted(ts2, n)) =~= kinds(ts2));
    assert(kinds(seq![u] + shifted(ts2, n)) =~= seq![u.kind] + kinds(shifted(ts2, n)));
    assert(kinds(seq![t] + ts) =~= seq![t.kind] + kinds(ts));
}

proof fn lemma_respaced_from(s: Seq<char>, i: int)
    requires
        0 <= i,
        lex_from(s, i) is Ok,
    ensures
        lex_spec(respaced(s, lex_from(s, i)->Ok_0)) is Ok,
        kinds(lex_spec(respaced(s, lex_from(s, i)->Ok_0))->Ok_0) == kinds(lex_from(s, i)->Ok_0),
    decreases s.len() - i,
{
    let ts = lex_from(s, i)->Ok_0;
    if i >= s.len() {
        let e: Seq<char> = seq![];
        assert(respaced(s, ts) == e);
        assert(kinds(seq![eof_at(e)]) =~= kinds(ts));
    } else {
        let c = s[i];
        if is_space(c) {
            lemma_respaced_from(s, i + 1);
        } else {
            let j = if c == '(' || c == ')' {
                i + 1
            } else if ident_start(c) {
                lemma_ident_run(s, i + 1);
                ident_end(s, i)
            } else {
                lemma_digit_run(s, i + 1);
                digit_end(s, i)
            };
            let t = ts[0];
            let ts1 = lex_from(s, j)->Ok_0;
            assert(ts =~= seq![t] + ts1);
            lemma_eof_from(s, j);
            lemma_respaced_from(s, j);
            let x = token_text(s, t);
            let rest = respaced(s, ts1);
            assert(ts.drop_first() =~= ts1);
            let w = x + seq![' '] + rest;
            assert(respaced(s, ts) == w);
            lemma_after_text(x, rest);
            assert(w[x.len() as int] == ' ');
            assert(w.subrange(0, x.len() as int) =~= x);
            if c == '(' || c == ')' {
                assert(w[0] == c);
                lemma_finish(t, TokenView { loc: 0, kind: t.kind }, ts1, lex_from(rest, 0), x.len() + 1);
            } else if ident_start(c) {
                assert(x == s.subrange(i, j));
                assert forall|m: int| 1 <= m < x.len() implies ident_cont(#[trigger] w[m]) by {
                    assert(w[m] == s[i + m]);
                }
                assert(w[0] == c);
                lemma_ident_run_exact(w, 1, x.len() as int);
                lemma_finish(t, TokenView { loc: 0, kind: t.kind }, ts1, lex_from(rest, 0), x.len() + 1);
            } else {
                assert(x == s.subrange(i, j));
                assert forall|m: int| 1 <= m < x.len() implies is_digit(#[trigger] w[m]) by {
                    assert(w[m] == s[i + m]);
                }
                assert(w[0] == c);
                lemma_digit_run_exact(w, 1, x.len() as int);
                lemma_finish(t, TokenView { loc: 0, kind: t.kind }, ts1, lex_from(rest, 0), x.len() + 1);
            }
        }
    }
}

/// Writing out each token's source text in order, separated by single spaces,
/// and lexing that text again succeeds with the same sequence of token kinds.
pub proof fn law_respaced_round_trip(s: Seq<char>)
    requires
        lex_spec(s) is Ok,
    ensures
        lex_spec(respaced(s, lex_spec(s)->Ok_0)) is Ok,
        kinds(lex_spec(respaced(s, lex_spec(s)->Ok_0))->Ok_0) == kinds(lex_spec(s)->Ok_0),
{
    lemma_respaced_from(s, 0);
}

} // verus!
