//! How the tokens of a text cover it: every character lies in exactly one
//! lexeme, and the characters of the token lexemes are exactly those that
//! the spans of the tokens hold, each of them once.

use crate::lex::{lemma_lexeme_advances, lex_from, lexeme_at, LexemeKind, TokenView};
use crate::text::is_unicode_whitespace;
use vstd::prelude::*;

verus! {

/// The start of the lexeme that holds offset `q`, where lexemes are read
/// one after another from the lexeme start `from`.
pub open spec fn lexeme_start(s: Seq<char>, from: int, q: int) -> int
    decreases s.len() - from,
{
    if 0 <= from < s.len() && lexeme_at(s, from).end <= q {
        proof {
            lemma_lexeme_advances(s, from);
        }
        lexeme_start(s, lexeme_at(s, from).end, q)
    } else {
        from
    }
}

/// Whether offset `q` lies within the source text of token `t`: from the
/// token's offset up to the end of the lexeme that starts there.
pub open spec fn in_span(s: Seq<char>, t: TokenView, q: int) -> bool {
    t.offset <= q < lexeme_at(s, t.offset).end
}

/// The number of tokens whose span holds offset `q`.
pub open spec fn times_covered(s: Seq<char>, tokens: Seq<TokenView>, q: int) -> nat
    decreases tokens.len(),
{
    if tokens.len() == 0 {
        0
    } else {
        times_covered(s, tokens.drop_last(), q) + if in_span(s, tokens.last(), q) {
            1nat
        } else {
            0nat
        }
    }
}

/// The tokens of two sequences in a row cover an offset as often as the
/// two sequences together.
proof fn lemma_times_covered_concat(s: Seq<char>, a: Seq<TokenView>, b: Seq<TokenView>, q: int)
    ensures
        times_covered(s, a + b, q) == times_covered(s, a, q) + times_covered(s, b, q),
    decreases b.len(),
{
    if b.len() == 0 {
        assert(a + b =~= a);
    } else {
        assert((a + b).drop_last() =~= a + b.drop_last());
        lemma_times_covered_concat(s, a, b.drop_last(), q);
    }
}

/// Tokens none of which holds an offset do not cover it.
proof fn lemma_times_covered_none(s: Seq<char>, tokens: Seq<TokenView>, q: int)
    requires
        forall|i: int| 0 <= i < tokens.len() ==> !in_span(s, #[trigger] tokens[i], q),
    ensures
        times_covered(s, tokens, q) == 0,
    decreases tokens.len(),
{
    if tokens.len() > 0 {
        assert forall|i: int| 0 <= i < tokens.drop_last().len() implies !in_span(
            s,
            #[trigger] tokens.drop_last()[i],
            q,
        ) by {
            assert(tokens.drop_last()[i] == tokens[i]);
        }
        lemma_times_covered_none(s, tokens.drop_last(), q);
    }
}

/// Every token stands where a token lexeme starts, carries that lexeme's
/// kind and content, and tokens come in the order of their offsets, none
/// starting before the one in front of it has ended.
pub proof fn lemma_tokens_in_order(s: Seq<char>, from: int)
    requires
        0 <= from <= s.len(),
    ensures
        forall|i: int|
            0 <= i < lex_from(s, from).tokens.len() ==> ({
                let t = #[trigger] lex_from(s, from).tokens[i];
                &&& from <= t.offset < s.len()
                &&& lexeme_at(s, t.offset).kind == LexemeKind::Token(t.token, t.content)
                &&& t.offset < lexeme_at(s, t.offset).end <= s.len()
            }),
        forall|i: int, j: int|
            0 <= i < j < lex_from(s, from).tokens.len() ==> lexeme_at(
                s,
                lex_from(s, from).tokens[i].offset,
            ).end <= lex_from(s, from).tokens[j].offset,
    decreases s.len() - from,
{
    if from < s.len() {
        let lx = lexeme_at(s, from);
        lemma_lexeme_advances(s, from);
        lemma_tokens_in_order(s, lx.end);
        let all = lex_from(s, from).tokens;
        let rest = lex_from(s, lx.end).tokens;
        match lx.kind {
            LexemeKind::Token(token, content) => {
                assert forall|i: int| 0 <= i < all.len() implies {
                    let t = #[trigger] all[i];
                    &&& from <= t.offset < s.len()
                    &&& lexeme_at(s, t.offset).kind == LexemeKind::Token(t.token, t.content)
                    &&& t.offset < lexeme_at(s, t.offset).end <= s.len()
                } by {
                    if i > 0 {
                        assert(all[i] == rest[i - 1]);
                    }
                }
                assert forall|i: int, j: int| 0 <= i < j < all.len() implies lexeme_at(
                    s,
                    all[i].offset,
                ).end <= all[j].offset by {
                    assert(all[j] == rest[j - 1]);
                    if i > 0 {
                        assert(all[i] == rest[i - 1]);
                    }
                }
            },
            _ => {},
        }
    }
}

/// Every character is accounted for exactly once.
///
/// The offset `q` lies in exactly one lexeme. Where that lexeme is a token,
/// exactly one token of the text holds `q` in its span; where it is white
/// space, a comment or a stray character, no token does. A stray character
/// is the one case of a character that is neither white space nor comment
/// and yet belongs to no token: it is reported as an error instead.
pub proof fn lemma_covered_once(s: Seq<char>, q: int)
    requires
        0 <= q < s.len(),
    ensures
        ({
            let start = lexeme_start(s, 0, q);
            let lx = lexeme_at(s, start);
            &&& 0 <= start <= q < lx.end <= s.len()
            &&& times_covered(s, lex_from(s, 0).tokens, q) == if lx.kind is Token {
                1nat
            } else {
                0nat
            }
            &&& lx.kind is Blank ==> start == q && is_unicode_whitespace(s[q])
            &&& lx.kind is Stray ==> start == q && !is_unicode_whitespace(s[q])
            &&& lx.kind is Comment ==> s[start] == '/' && s[start + 1] == '/'
        }),
{
    lemma_covered_once_from(s, 0, q);
}

/// The same, for the lexemes and tokens read from the lexeme start `from`.
proof fn lemma_covered_once_from(s: Seq<char>, from: int, q: int)
    requires
        0 <= from <= q < s.len(),
        lexeme_start(s, 0, q) == lexeme_start(s, from, q),
    ensures
        ({
            let start = lexeme_start(s, 0, q);
            let lx = lexeme_at(s, start);
            &&& from <= start <= q < lx.end <= s.len()
            &&& times_covered(s, lex_from(s, from).tokens, q) == if lx.kind is Token {
                1nat
            } else {
                0nat
            }
            &&& lx.kind is Blank ==> start == q && is_unicode_whitespace(s[q])
            &&& lx.kind is Stray ==> start == q && !is_unicode_whitespace(s[q])
            &&& lx.kind is Comment ==> s[start] == '/' && s[start + 1] == '/'
        }),
    decreases s.len() - from,
{
    let lx = lexeme_at(s, from);
    lemma_lexeme_advances(s, from);
    let rest = lex_from(s, lx.end).tokens;
    lemma_tokens_in_order(s, lx.end);
    if lx.end <= q {
        lemma_covered_once_from(s, lx.end, q);
        match lx.kind {
            LexemeKind::Token(token, content) => {
                let first = seq![TokenView { offset: from, content, token }];
                lemma_times_covered_concat(s, first, rest, q);
                assert(first.drop_last() =~= Seq::<TokenView>::empty());
                assert(times_covered(s, Seq::<TokenView>::empty(), q) == 0);
                assert(first.last().offset == from);
                assert(times_covered(s, first, q) == 0);
            },
            _ => {},
        }
    } else {
        assert(lexeme_start(s, from, q) == from);
        lemma_times_covered_none(s, rest, q);
        match lx.kind {
            LexemeKind::Token(token, content) => {
                let first = seq![TokenView { offset: from, content, token }];
                lemma_times_covered_concat(s, first, rest, q);
                assert(first.drop_last() =~= Seq::<TokenView>::empty());
                assert(times_covered(s, Seq::<TokenView>::empty(), q) == 0);
                assert(first.last().offset == from);
                assert(times_covered(s, first, q) == 1);
            },
            _ => {},
        }
    }
}

} // verus!
