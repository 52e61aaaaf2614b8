//! The lexer: from characters to tokens.
//!
//! Letters are folded to lower case before a word is resolved against the
//! keyword table, comments run from `//` to the end of the line, and a
//! character that starts no token is reported and skipped.

use crate::error::{Diag, ErrorRecorder};
use crate::text::{
    alnum, chars_of, digit, folded, is_alnum, is_digit, is_letter, is_unicode_whitespace, letter,
    push_chars, to_lower,
};
use vstd::prelude::*;

verus! {

/// The kinds of token. Keywords are matched without regard to case.
#[derive(Debug, Copy, Clone, PartialEq, Eq, Structural)]
pub enum TokenEnum {
    // struct keywords
    Var,
    If,
    Then,
    Else,
    While,
    Do,
    Begin,
    End,
    // operator keywords
    And,
    Or,
    // type keywords
    Integer,
    Longint,
    Bool,
    Real,
    // operators
    /// `+`
    Add,
    /// `-`
    Sub,
    /// `*`
    Mul,
    /// `/`
    Div,
    /// `:=`
    Assign,
    /// `<`
    Lt,
    /// `>`
    Gt,
    /// `<>`
    Ne,
    /// `>=`
    Ge,
    /// `<=`
    Le,
    /// `=`
    Eq,
    /// `:`
    Colon,
    /// `(`
    LParen,
    /// `)`
    RParen,
    // struct symbols
    /// `,`
    Comma,
    /// `;`
    SemiColon,
    // literals and identifiers
    /// A letter followed by letters and digits, folded to lower case.
    Identifier,
    /// A run of decimal digits, without superfluous leading zeros.
    IntLiteral,
}

/// A token as contracts see it.
pub struct TokenView {
    pub offset: int,
    pub content: Seq<char>,
    pub token: TokenEnum,
}

/// A token with the offset of its first character. `content` is the folded
/// name of an identifier, the normalized digits of a literal, and the source
/// text of any other token.
#[derive(Debug)]
pub struct Token {
    pub offset: usize,
    pub content: String,
    pub token: TokenEnum,
}

impl Clone for Token {
    fn clone(&self) -> (r: Self)
        ensures
            r == *self,
    {
        Token { offset: self.offset, content: self.content.clone(), token: self.token }
    }
}

impl View for Token {
    type V = TokenView;

    open spec fn view(&self) -> TokenView {
        TokenView { offset: self.offset as int, content: self.content@, token: self.token }
    }
}

/// The views of a sequence of tokens, in the same order.
pub open spec fn token_views(v: Seq<Token>) -> Seq<TokenView> {
    Seq::new(v.len(), |i: int| v[i]@)
}

/// The keyword that the folded word `text` spells, if any.
pub open spec fn keyword(text: Seq<char>) -> Option<TokenEnum> {
    if text == "var"@ {
        Some(TokenEnum::Var)
    } else if text == "integer"@ {
        Some(TokenEnum::Integer)
    } else if text == "longint"@ {
        Some(TokenEnum::Longint)
    } else if text == "bool"@ {
        Some(TokenEnum::Bool)
    } else if text == "real"@ {
        Some(TokenEnum::Real)
    } else if text == "if"@ {
        Some(TokenEnum::If)
    } else if text == "then"@ {
        Some(TokenEnum::Then)
    } else if text == "else"@ {
        Some(TokenEnum::Else)
    } else if text == "while"@ {
        Some(TokenEnum::While)
    } else if text == "do"@ {
        Some(TokenEnum::Do)
    } else if text == "begin"@ {
        Some(TokenEnum::Begin)
    } else if text == "end"@ {
        Some(TokenEnum::End)
    } else if text == "and"@ {
        Some(TokenEnum::And)
    } else if text == "or"@ {
        Some(TokenEnum::Or)
    } else {
        None
    }
}

/// The classes of character that a run is made of.
#[derive(Debug, Copy, Clone, PartialEq, Eq, Structural)]
pub enum CharClass {
    /// ASCII letters and digits.
    Alnum,
    /// ASCII digits.
    Digit,
    /// The digit `0`.
    Zero,
    /// Everything but the newline.
    Line,
}

/// Whether `c` belongs to `class`.
pub open spec fn in_class(class: CharClass, c: char) -> bool {
    match class {
        CharClass::Alnum => is_alnum(c),
        CharClass::Digit => is_digit(c),
        CharClass::Zero => c == '0',
        CharClass::Line => c != '\n',
    }
}

/// The end of the longest run of characters of `class` that starts at `pos`.
pub open spec fn run_end(s: Seq<char>, pos: int, class: CharClass) -> int
    decreases s.len() - pos,
{
    if 0 <= pos < s.len() && in_class(class, s[pos]) {
        run_end(s, pos + 1, class)
    } else {
        pos
    }
}

/// A run ends within the text, holds only characters of its class, and
/// cannot be extended.
pub proof fn lemma_run_end(s: Seq<char>, pos: int, class: CharClass)
    requires
        0 <= pos <= s.len(),
    ensures
        pos <= run_end(s, pos, class) <= s.len(),
        forall|i: int| pos <= i < run_end(s, pos, class) ==> in_class(class, #[trigger] s[i]),
        run_end(s, pos, class) < s.len() ==> !in_class(class, s[run_end(s, pos, class)]),
        pos < s.len() && in_class(class, s[pos]) ==> pos < run_end(s, pos, class),
    decreases s.len() - pos,
{
    if pos < s.len() && in_class(class, s[pos]) {
        lemma_run_end(s, pos + 1, class);
    }
}

/// The digits `d` without their leading zeros.
pub open spec fn without_leading_zeros(d: Seq<char>) -> Seq<char>
    decreases d.len(),
{
    if d.len() > 0 && d[0] == '0' {
        without_leading_zeros(d.drop_first())
    } else {
        d
    }
}

/// The normalized form of the digits `d`: leading zeros are stripped, and a
/// literal made of zeros alone becomes a single `0`.
pub open spec fn normal_digits(d: Seq<char>) -> Seq<char> {
    let stripped = without_leading_zeros(d);
    if stripped.len() == 0 {
        seq!['0']
    } else {
        stripped
    }
}

/// Normalized digits are never empty, and start with `0` only where they
/// are the single digit `0`; digits without a leading zero, and the single
/// digit `0`, are left as they are.
pub proof fn lemma_normal_digits(d: Seq<char>)
    ensures
        normal_digits(d).len() >= 1,
        normal_digits(d)[0] == '0' ==> normal_digits(d) == seq!['0'],
        d.len() > 0 && d[0] != '0' ==> normal_digits(d) == d,
        d == seq!['0'] ==> normal_digits(d) == d,
    decreases d.len(),
{
    if d.len() > 0 && d[0] == '0' {
        lemma_normal_digits(d.drop_first());
        if d == seq!['0'] {
            assert(d.drop_first() =~= Seq::<char>::empty());
            assert(without_leading_zeros(d.drop_first()) =~= Seq::<char>::empty());
        }
    }
}

/// The symbol that starts at `pos`, with its length. Of two symbols that
/// start alike the longer one is taken.
pub open spec fn symbol_at(s: Seq<char>, pos: int) -> Option<(TokenEnum, int)> {
    let c = s[pos];
    let follows = |d: char| pos + 1 < s.len() && s[pos + 1] == d;
    if c == '+' {
        Some((TokenEnum::Add, 1))
    } else if c == '-' {
        Some((TokenEnum::Sub, 1))
    } else if c == '*' {
        Some((TokenEnum::Mul, 1))
    } else if c == '/' {
        Some((TokenEnum::Div, 1))
    } else if c == ':' {
        if follows('=') {
            Some((TokenEnum::Assign, 2))
        } else {
            Some((TokenEnum::Colon, 1))
        }
    } else if c == '<' {
        if follows('>') {
            Some((TokenEnum::Ne, 2))
        } else if follows('=') {
            Some((TokenEnum::Le, 2))
        } else {
            Some((TokenEnum::Lt, 1))
        }
    } else if c == '>' {
        if follows('=') {
            Some((TokenEnum::Ge, 2))
        } else {
            Some((TokenEnum::Gt, 1))
        }
    } else if c == '=' {
        Some((TokenEnum::Eq, 1))
    } else if c == '(' {
        Some((TokenEnum::LParen, 1))
    } else if c == ')' {
        Some((TokenEnum::RParen, 1))
    } else if c == ',' {
        Some((TokenEnum::Comma, 1))
    } else if c == ';' {
        Some((TokenEnum::SemiColon, 1))
    } else {
        None
    }
}

/// What a stretch of source text is to the lexer.
pub enum LexemeKind {
    /// A single white-space character.
    Blank,
    /// A comment, from `//` through the end of its line.
    Comment,
    /// A single character that starts no token.
    Stray,
    /// A token of the given kind and content.
    Token(TokenEnum, Seq<char>),
}

/// One stretch of source text, from its first character up to `end`, with
/// the diagnostics that reading it records.
pub struct Lexeme {
    pub kind: LexemeKind,
    pub end: int,
    pub errors: Seq<Diag>,
    pub warnings: Seq<Diag>,
}

/// The message for a character that starts no token.
pub open spec fn stray_message(c: char) -> Seq<char> {
    "Unexpected character `"@ + seq![c] + "`"@
}

/// The word that starts at `pos`: a keyword, or an identifier whose content
/// is its lower-case form.
pub open spec fn word_at(s: Seq<char>, pos: int) -> Lexeme {
    let end = run_end(s, pos, CharClass::Alnum);
    let name = folded(s.subrange(pos, end));
    let kind = match keyword(name) {
        Some(t) => LexemeKind::Token(t, s.subrange(pos, end)),
        None => LexemeKind::Token(TokenEnum::Identifier, name),
    };
    Lexeme { kind, end, errors: Seq::empty(), warnings: Seq::empty() }
}

/// The integer literal that starts at `pos`. A letter right behind the
/// digits is an error at that letter; more than one digit with a leading
/// zero is a warning at the literal.
pub open spec fn number_at(s: Seq<char>, pos: int) -> Lexeme {
    let end = run_end(s, pos, CharClass::Digit);
    let digits = s.subrange(pos, end);
    Lexeme {
        kind: LexemeKind::Token(TokenEnum::IntLiteral, normal_digits(digits)),
        end,
        errors: if end < s.len() && is_letter(s[end]) {
            seq![Diag { offset: end, msg: "unexpected character after number"@ }]
        } else {
            Seq::empty()
        },
        warnings: if s[pos] == '0' && end - pos > 1 {
            seq![Diag { offset: pos, msg: "Number should not start with 0"@ }]
        } else {
            Seq::empty()
        },
    }
}

/// The end of the comment that starts at `pos`: just past the first newline
/// behind the two slashes, or the end of the text where no newline follows.
pub open spec fn comment_end(s: Seq<char>, pos: int) -> int {
    let stop = run_end(s, pos + 2, CharClass::Line);
    if stop < s.len() {
        stop + 1
    } else {
        stop
    }
}

/// The lexeme that starts at `pos`, for `0 <= pos < s.len()`, where
/// `blank` tells whether the character at `pos` is white space.
pub open spec fn lexeme_with(s: Seq<char>, pos: int, blank: bool) -> Lexeme {
    let c = s[pos];
    if blank {
        Lexeme {
            kind: LexemeKind::Blank,
            end: pos + 1,
            errors: Seq::empty(),
            warnings: Seq::empty(),
        }
    } else if is_letter(c) {
        word_at(s, pos)
    } else if is_digit(c) {
        number_at(s, pos)
    } else if c == '/' && pos + 1 < s.len() && s[pos + 1] == '/' {
        Lexeme {
            kind: LexemeKind::Comment,
            end: comment_end(s, pos),
            errors: Seq::empty(),
            warnings: Seq::empty(),
        }
    } else {
        match symbol_at(s, pos) {
            Some((t, n)) => Lexeme {
                kind: LexemeKind::Token(t, s.subrange(pos, pos + n)),
                end: pos + n,
                errors: Seq::empty(),
                warnings: Seq::empty(),
            },
            None => Lexeme {
                kind: LexemeKind::Stray,
                end: pos + 1,
                errors: seq![Diag { offset: pos, msg: stray_message(c) }],
                warnings: Seq::empty(),
            },
        }
    }
}

/// The lexeme that starts at `pos`, for `0 <= pos < s.len()`.
pub open spec fn lexeme_at(s: Seq<char>, pos: int) -> Lexeme {
    lexeme_with(s, pos, is_unicode_whitespace(s[pos]))
}

/// Every lexeme holds at least one character and ends within the text.
pub proof fn lemma_lexeme_advances(s: Seq<char>, pos: int)
    requires
        0 <= pos < s.len(),
    ensures
        pos < lexeme_at(s, pos).end <= s.len(),
        forall|blank: bool| pos < (#[trigger] lexeme_with(s, pos, blank)).end <= s.len(),
{
    lemma_run_end(s, pos, CharClass::Alnum);
    lemma_run_end(s, pos, CharClass::Digit);
    if pos + 2 <= s.len() {
        lemma_run_end(s, pos + 2, CharClass::Line);
    }
}

/// What reading up to and including the next token yields: the token, or
/// none at the end of the text, the offset at which reading stops, and the
/// diagnostics recorded on the way.
pub struct Step {
    pub token: Option<TokenView>,
    pub end: int,
    pub errors: Seq<Diag>,
    pub warnings: Seq<Diag>,
}

/// Reads from `pos` up to and including the next token, skipping white
/// space, comments and stray characters.
pub open spec fn next_step(s: Seq<char>, pos: int) -> Step
    decreases s.len() - pos,
{
    if 0 <= pos < s.len() {
        let lx = lexeme_at(s, pos);
        match lx.kind {
            LexemeKind::Token(token, content) => Step {
                token: Some(TokenView { offset: pos, content, token }),
                end: lx.end,
                errors: lx.errors,
                warnings: lx.warnings,
            },
            _ => {
                proof {
                    lemma_lexeme_advances(s, pos);
                }
                let rest = next_step(s, lx.end);
                Step {
                    token: rest.token,
                    end: rest.end,
                    errors: lx.errors + rest.errors,
                    warnings: lx.warnings + rest.warnings,
                }
            },
        }
    } else {
        Step { token: None, end: pos, errors: Seq::empty(), warnings: Seq::empty() }
    }
}

/// What lexing a text yields: its tokens and the diagnostics recorded.
pub struct Lexed {
    pub tokens: Seq<TokenView>,
    pub errors: Seq<Diag>,
    pub warnings: Seq<Diag>,
}

/// Lexes `s` from `pos` to its end.
pub open spec fn lex_from(s: Seq<char>, pos: int) -> Lexed
    decreases s.len() - pos,
{
    if 0 <= pos < s.len() {
        let lx = lexeme_at(s, pos);
        proof {
            lemma_lexeme_advances(s, pos);
        }
        let rest = lex_from(s, lx.end);
        Lexed {
            tokens: match lx.kind {
                LexemeKind::Token(token, content) => seq![TokenView { offset: pos, content, token }]
                    + rest.tokens,
                _ => rest.tokens,
            },
            errors: lx.errors + rest.errors,
            warnings: lx.warnings + rest.warnings,
        }
    } else {
        Lexed { tokens: Seq::empty(), errors: Seq::empty(), warnings: Seq::empty() }
    }
}


/// Lexing from `pos` is reading one token and lexing from where that
/// reading stops; where no token is left, reading stops at the end.
pub proof fn lemma_lex_unfold(s: Seq<char>, pos: int)
    requires
        0 <= pos <= s.len(),
    ensures
        pos <= next_step(s, pos).end <= s.len(),
        next_step(s, pos).token is None ==> next_step(s, pos).end == s.len(),
        next_step(s, pos).token is Some ==> pos < next_step(s, pos).end,
        lex_from(s, pos).tokens == match next_step(s, pos).token {
            Some(t) => seq![t] + lex_from(s, next_step(s, pos).end).tokens,
            None => Seq::empty(),
        },
        lex_from(s, pos).errors == next_step(s, pos).errors + lex_from(
            s,
            next_step(s, pos).end,
        ).errors,
        lex_from(s, pos).warnings == next_step(s, pos).warnings + lex_from(
            s,
            next_step(s, pos).end,
        ).warnings,
    decreases s.len() - pos,
{
    if pos < s.len() {
        let lx = lexeme_at(s, pos);
        lemma_lexeme_advances(s, pos);
        match lx.kind {
            LexemeKind::Token(token, content) => {},
            _ => {
                lemma_lex_unfold(s, lx.end);
                let rest = next_step(s, lx.end);
                let tail = lex_from(s, rest.end);
                assert(lx.errors + (rest.errors + tail.errors) =~= (lx.errors + rest.errors)
                    + tail.errors);
                assert(lx.warnings + (rest.warnings + tail.warnings) =~= (lx.warnings
                    + rest.warnings) + tail.warnings);
            },
        }
    } else {
        assert(Seq::<Diag>::empty() + Seq::<Diag>::empty() =~= Seq::<Diag>::empty());
    }
}

/// Whether `c` belongs to `class`.
fn class_holds(class: CharClass, c: char) -> (r: bool)
    ensures
        r == in_class(class, c),
{
    match class {
        CharClass::Alnum => alnum(c),
        CharClass::Digit => digit(c),
        CharClass::Zero => c == '0',
        CharClass::Line => c != '\n',
    }
}

/// The end of the longest run of characters of `class` in `input` that
/// starts at `pos`.
fn scan_run(input: &Vec<char>, pos: usize, class: CharClass) -> (end: usize)
    requires
        pos <= input.len(),
    ensures
        end == run_end(input@, pos as int, class),
        pos <= end <= input.len(),
{
    let mut end: usize = pos;
    while end < input.len() && class_holds(class, input[end])
        invariant
            pos <= end <= input.len(),
            run_end(input@, end as int, class) == run_end(input@, pos as int, class),
        decreases input.len() - end,
    {
        end += 1;
    }
    end
}

/// Whether the characters of `word` are those of `text`.
fn spells(word: &Vec<char>, text: &str) -> (r: bool)
    ensures
        r == (word@ == text@),
{
    let mut same = true;
    let mut i: usize = 0;
    for c in it: text.chars()
        invariant
            same ==> i == it.index() && i <= word.len() && word@.take(i as int)
                == it.seq().take(i as int),
            !same ==> word@ != it.seq(),
    {
        if same {
            if i < word.len() && word[i] == c {
                assert(word@.take(i + 1) =~= word@.take(i as int).push(word@[i as int]));
                assert(it.seq().take(i + 1) =~= it.seq().take(i as int).push(c));
                i += 1;
            } else {
                same = false;
                if i < word.len() {
                    assert(word@[i as int] != it.seq()[i as int]);
                }
            }
        }
    }
    if same && i == word.len() {
        assert(word@.take(i as int) =~= word@);
        assert(text@.take(i as int) =~= text@);
        true
    } else {
        false
    }
}

/// The keyword that the folded word `word` spells, if any.
fn keyword_of(word: &Vec<char>) -> (r: Option<TokenEnum>)
    ensures
        r == keyword(word@),
{
    if spells(word, "var") {
        Some(TokenEnum::Var)
    } else if spells(word, "integer") {
        Some(TokenEnum::Integer)
    } else if spells(word, "longint") {
        Some(TokenEnum::Longint)
    } else if spells(word, "bool") {
        Some(TokenEnum::Bool)
    } else if spells(word, "real") {
        Some(TokenEnum::Real)
    } else if spells(word, "if") {
        Some(TokenEnum::If)
    } else if spells(word, "then") {
        Some(TokenEnum::Then)
    } else if spells(word, "else") {
        Some(TokenEnum::Else)
    } else if spells(word, "while") {
        Some(TokenEnum::While)
    } else if spells(word, "do") {
        Some(TokenEnum::Do)
    } else if spells(word, "begin") {
        Some(TokenEnum::Begin)
    } else if spells(word, "end") {
        Some(TokenEnum::End)
    } else if spells(word, "and") {
        Some(TokenEnum::And)
    } else if spells(word, "or") {
        Some(TokenEnum::Or)
    } else {
        None
    }
}

/// What one step of the lexer hands back.
#[derive(Debug)]
pub enum NextToken {
    /// The end of the input was reached.
    EOF,
    /// A stretch of input that holds no token was skipped.
    Blank,
    /// A token whose content is the source text that was read.
    Type(TokenEnum),
    /// A token whose content differs from the source text.
    WithContent(TokenEnum, String),
}

impl NextToken {
    /// The kind and content of the token that was read from the source text
    /// `raw`, where one was read.
    pub open spec fn resolved(self, raw: Seq<char>) -> Option<(TokenEnum, Seq<char>)> {
        match self {
            NextToken::EOF => None,
            NextToken::Blank => None,
            NextToken::Type(t) => Some((t, raw)),
            NextToken::WithContent(t, content) => Some((t, content@)),
        }
    }
}

/// The kind and content of the token that a lexeme holds, where it holds one.
pub open spec fn token_of(kind: LexemeKind) -> Option<(TokenEnum, Seq<char>)> {
    match kind {
        LexemeKind::Token(t, content) => Some((t, content)),
        _ => None,
    }
}

/// Reads the word that starts at `pos` with a letter.
fn scan_word(input: &Vec<char>, pos: usize) -> (r: (NextToken, usize))
    requires
        pos < input.len(),
    ensures
        r.1 == word_at(input@, pos as int).end,
        r.0.resolved(input@.subrange(pos as int, r.1 as int)) == token_of(
            word_at(input@, pos as int).kind,
        ),
        !(r.0 is EOF),
{
    let end = scan_run(input, pos, CharClass::Alnum);
    let mut name: Vec<char> = Vec::new();
    let mut i: usize = pos;
    assert(folded(input@.subrange(pos as int, pos as int)) =~= name@);
    while i < end
        invariant
            pos <= i <= end <= input.len(),
            name@ == folded(input@.subrange(pos as int, i as int)),
        decreases end - i,
    {
        name.push(to_lower(input[i]));
        i += 1;
        assert(name@ =~= folded(input@.subrange(pos as int, i as int)));
    }
    match keyword_of(&name) {
        Some(t) => (NextToken::Type(t), end),
        None => {
            let mut content = String::new();
            push_chars(&mut content, &name, 0, name.len());
            assert(content@ =~= name@);
            (NextToken::WithContent(TokenEnum::Identifier, content), end)
        },
    }
}

/// Stripping leading zeros from `s[pos..end]` leaves what stands behind
/// the run of zeros that starts at `pos`.
proof fn lemma_leading_zeros(s: Seq<char>, pos: int, end: int)
    requires
        0 <= pos <= end <= s.len(),
    ensures
        without_leading_zeros(s.subrange(pos, end)) == if run_end(s, pos, CharClass::Zero)
            < end {
            s.subrange(run_end(s, pos, CharClass::Zero), end)
        } else {
            Seq::empty()
        },
    decreases end - pos,
{
    let d = s.subrange(pos, end);
    lemma_run_end(s, pos, CharClass::Zero);
    if pos < end && s[pos] == '0' {
        assert(d.drop_first() =~= s.subrange(pos + 1, end));
        lemma_leading_zeros(s, pos + 1, end);
    } else if pos == end {
        assert(d =~= Seq::<char>::empty());
    }
}

/// Reads the integer literal that starts at `pos` with a digit, and
/// records what is wrong with it.
fn scan_number(input: &Vec<char>, pos: usize, errors: &mut ErrorRecorder) -> (r: (
    NextToken,
    usize,
))
    requires
        pos < input.len(),
        is_digit(input@[pos as int]),
    ensures
        r.1 == number_at(input@, pos as int).end,
        r.0.resolved(input@.subrange(pos as int, r.1 as int)) == token_of(
            number_at(input@, pos as int).kind,
        ),
        !(r.0 is EOF),
        final(errors)@.errors == old(errors)@.errors + number_at(input@, pos as int).errors,
        final(errors)@.warnings == old(errors)@.warnings + number_at(input@, pos as int).warnings,
{
    let end = scan_run(input, pos, CharClass::Digit);
    proof {
        lemma_run_end(input@, pos as int, CharClass::Digit);
        lemma_leading_zeros(input@, pos as int, end as int);
    }
    if end < input.len() && letter(input[end]) {
        errors.error(end, "unexpected character after number");
        assert(errors@.errors =~= old(errors)@.errors + number_at(input@, pos as int).errors);
    } else {
        assert(errors@.errors =~= old(errors)@.errors + number_at(input@, pos as int).errors);
    }
    if input[pos] == '0' && end - pos > 1 {
        errors.warning(pos, "Number should not start with 0");
        assert(errors@.warnings =~= old(errors)@.warnings + number_at(
            input@,
            pos as int,
        ).warnings);
        let first = scan_run(input, pos, CharClass::Zero);
        let mut content = String::new();
        if first < end {
            push_chars(&mut content, input, first, end);
            assert(content@ =~= input@.subrange(first as int, end as int));
        } else {
            content.push('0');
            assert(content@ =~= seq!['0']);
        }
        assert(content@ == normal_digits(input@.subrange(pos as int, end as int)));
        (NextToken::WithContent(TokenEnum::IntLiteral, content), end)
    } else {
        assert(errors@.warnings =~= old(errors)@.warnings + number_at(
            input@,
            pos as int,
        ).warnings);
        proof {
            let d = input@.subrange(pos as int, end as int);
            assert(d.len() > 0 && d[0] == input@[pos as int]);
            if input@[pos as int] == '0' {
                assert(d.drop_first() =~= Seq::<char>::empty());
                assert(without_leading_zeros(d.drop_first()) =~= Seq::<char>::empty());
                assert(d =~= seq!['0']);
            } else {
                assert(without_leading_zeros(d) == d);
            }
            assert(normal_digits(d) == d);
        }
        (NextToken::Type(TokenEnum::IntLiteral), end)
    }
}

/// Whether the character behind `pos` is `c`.
fn followed_by(input: &Vec<char>, pos: usize, c: char) -> (r: bool)
    requires
        pos < input.len(),
    ensures
        r == (pos + 1 < input.len() && input@[pos + 1] == c),
{
    pos + 1 < input.len() && input[pos + 1] == c
}

/// Reads the symbol that starts at `pos`, if one does: hands back its kind
/// and its end.
fn scan_symbol(input: &Vec<char>, pos: usize) -> (r: Option<(TokenEnum, usize)>)
    requires
        pos < input.len(),
    ensures
        match r {
            Some((t, end)) => symbol_at(input@, pos as int) == Some((t, end - pos)),
            None => symbol_at(input@, pos as int) is None,
        },
{
    let c = input[pos];
    if c == '+' {
        Some((TokenEnum::Add, pos + 1))
    } else if c == '-' {
        Some((TokenEnum::Sub, pos + 1))
    } else if c == '*' {
        Some((TokenEnum::Mul, pos + 1))
    } else if c == '/' {
        Some((TokenEnum::Div, pos + 1))
    } else if c == ':' {
        if followed_by(input, pos, '=') {
            Some((TokenEnum::Assign, pos + 2))
        } else {
            Some((TokenEnum::Colon, pos + 1))
        }
    } else if c == '<' {
        if followed_by(input, pos, '>') {
            Some((TokenEnum::Ne, pos + 2))
        } else if followed_by(input, pos, '=') {
            Some((TokenEnum::Le, pos + 2))
        } else {
            Some((TokenEnum::Lt, pos + 1))
        }
    } else if c == '>' {
        if followed_by(input, pos, '=') {
            Some((TokenEnum::Ge, pos + 2))
        } else {
            Some((TokenEnum::Gt, pos + 1))
        }
    } else if c == '=' {
        Some((TokenEnum::Eq, pos + 1))
    } else if c == '(' {
        Some((TokenEnum::LParen, pos + 1))
    } else if c == ')' {
        Some((TokenEnum::RParen, pos + 1))
    } else if c == ',' {
        Some((TokenEnum::Comma, pos + 1))
    } else if c == ';' {
        Some((TokenEnum::SemiColon, pos + 1))
    } else {
        None
    }
}

/// Reads the lexeme of `input` that starts at `pos`, where `blank` tells
/// whether the character at `pos` is white space: hands back what the
/// lexeme holds and where it ends, and records its diagnostics. Behind the
/// last character there is nothing to read.
pub fn scan_lexeme(input: &Vec<char>, pos: usize, blank: bool, errors: &mut ErrorRecorder) -> (r:
    (NextToken, usize))
    ensures
        r.0 is EOF <==> pos >= input.len(),
        r.0 is EOF ==> r.1 == pos && final(errors)@ == old(errors)@,
        !(r.0 is EOF) ==> ({
            let lx = lexeme_with(input@, pos as int, blank);
            &&& r.1 == lx.end
            &&& pos < r.1 <= input.len()
            &&& r.0.resolved(input@.subrange(pos as int, r.1 as int)) == token_of(lx.kind)
            &&& final(errors)@.errors == old(errors)@.errors + lx.errors
            &&& final(errors)@.warnings == old(errors)@.warnings + lx.warnings
        }),
{
    if pos >= input.len() {
        return (NextToken::EOF, pos);
    }
    proof {
        lemma_lexeme_advances(input@, pos as int);
    }
    let c = input[pos];
    if blank {
        assert(errors@.errors =~= old(errors)@.errors + Seq::<Diag>::empty());
        assert(errors@.warnings =~= old(errors)@.warnings + Seq::<Diag>::empty());
        (NextToken::Blank, pos + 1)
    } else if letter(c) {
        assert(errors@.errors =~= old(errors)@.errors + Seq::<Diag>::empty());
        assert(errors@.warnings =~= old(errors)@.warnings + Seq::<Diag>::empty());
        scan_word(input, pos)
    } else if digit(c) {
        scan_number(input, pos, errors)
    } else if c == '/' && followed_by(input, pos, '/') {
        let stop = scan_run(input, pos + 2, CharClass::Line);
        let end = if stop < input.len() {
            stop + 1
        } else {
            stop
        };
        assert(errors@.errors =~= old(errors)@.errors + Seq::<Diag>::empty());
        assert(errors@.warnings =~= old(errors)@.warnings + Seq::<Diag>::empty());
        (NextToken::Blank, end)
    } else {
        match scan_symbol(input, pos) {
            Some((t, end)) => {
                assert(errors@.errors =~= old(errors)@.errors + Seq::<Diag>::empty());
                assert(errors@.warnings =~= old(errors)@.warnings + Seq::<Diag>::empty());
                (NextToken::Type(t), end)
            },
            None => {
                let mut msg = String::from_str("Unexpected character `");
                msg.push(c);
                msg.append("`");
                assert(msg@ =~= stray_message(c));
                errors.error(pos, msg.as_str());
                assert(errors@.errors =~= old(errors)@.errors + lexeme_with(
                    input@,
                    pos as int,
                    blank,
                ).errors);
                assert(errors@.warnings =~= old(errors)@.warnings + Seq::<Diag>::empty());
                (NextToken::Blank, pos + 1)
            },
        }
    }
}

/// Whether the character of `input` at `pos` is white space; behind the
/// last character there is none.
fn blank_at(input: &Vec<char>, pos: usize) -> (r: bool)
    ensures
        r == (pos < input.len() && is_unicode_whitespace(input@[pos as int])),
{
    pos < input.len() && input[pos].is_whitespace()
}

/// The token that `next` stands for, read from `input[start..end]`.
fn token_from(next: NextToken, input: &Vec<char>, start: usize, end: usize) -> (r: Option<Token>)
    requires
        start <= end <= input.len(),
    ensures
        match r {
            Some(t) => next.resolved(input@.subrange(start as int, end as int)) == Some(
                (t.token, t.content@),
            ) && t.offset == start,
            None => next.resolved(input@.subrange(start as int, end as int)) is None,
        },
{
    match next {
        NextToken::EOF => None,
        NextToken::Blank => None,
        NextToken::Type(token) => {
            let mut content = String::new();
            push_chars(&mut content, input, start, end);
            assert(content@ =~= input@.subrange(start as int, end as int));
            Some(Token { offset: start, content, token })
        },
        NextToken::WithContent(token, content) => Some(Token { offset: start, content, token }),
    }
}

/// A cursor over a source text, as contracts see it.
pub struct Cursor {
    pub input: Seq<char>,
    pub pos: int,
}

/// A cursor over the characters of a source text.
#[derive(Debug)]
pub struct CharStream {
    input: Vec<char>,
    pos: usize,
}

impl View for CharStream {
    type V = Cursor;

    closed spec fn view(&self) -> Cursor {
        Cursor { input: self.input@, pos: self.pos as int }
    }
}

impl Clone for CharStream {
    fn clone(&self) -> (r: Self)
        ensures
            r@ == self@,
    {
        proof {
            use_type_invariant(self);
        }
        let input = self.input.clone();
        assert(input@ =~= self.input@);
        CharStream { input, pos: self.pos }
    }
}

impl CharStream {
    #[verifier::type_invariant]
    spec fn well_formed(&self) -> bool {
        self.pos <= self.input@.len()
    }

    /// A cursor at the start of `input`.
    pub fn new(input: &str) -> (r: Self)
        ensures
            r@.input == input@,
            r@.pos == 0,
    {
        Self { input: chars_of(input), pos: 0 }
    }

    /// The offset at which the cursor stands.
    pub fn pos(&self) -> (r: usize)
        ensures
            r == self@.pos,
            r <= self@.input.len(),
    {
        proof {
            use_type_invariant(self);
        }
        self.pos
    }

    /// The character at the cursor, or `None` at the end of the input.
    pub fn peek(&self) -> (r: Option<char>)
        ensures
            0 <= self@.pos <= self@.input.len(),
            r == if self@.pos < self@.input.len() {
                Some(self@.input[self@.pos])
            } else {
                None
            },
    {
        proof {
            use_type_invariant(self);
        }
        if self.pos < self.input.len() {
            Some(self.input[self.pos])
        } else {
            None
        }
    }

    /// Hands back the character at the cursor and moves past it; at the end
    /// of the input nothing moves.
    pub fn next(&mut self) -> (r: Option<char>)
        ensures
            final(self)@.input == old(self)@.input,
            0 <= old(self)@.pos <= final(self)@.pos <= old(self)@.input.len(),
            r == if old(self)@.pos < old(self)@.input.len() {
                Some(old(self)@.input[old(self)@.pos])
            } else {
                None
            },
            final(self)@.pos == if r is Some {
                old(self)@.pos + 1
            } else {
                old(self)@.pos
            },
    {
        proof {
            use_type_invariant(&*self);
        }
        if self.pos < self.input.len() {
            let c = self.input[self.pos];
            self.pos += 1;
            Some(c)
        } else {
            None
        }
    }

    /// Reads one lexeme at the cursor and moves past it.
    pub fn next_token_base(&mut self, errors: &mut ErrorRecorder) -> (r: NextToken)
        ensures
            final(self)@.input == old(self)@.input,
            0 <= old(self)@.pos <= final(self)@.pos <= old(self)@.input.len(),
            r is EOF <==> old(self)@.pos == old(self)@.input.len(),
            r is EOF ==> final(self)@ == old(self)@ && final(errors)@ == old(errors)@,
            !(r is EOF) ==> ({
                let lx = lexeme_at(old(self)@.input, old(self)@.pos);
                &&& final(self)@.pos == lx.end
                &&& old(self)@.pos < lx.end
                &&& r.resolved(old(self)@.input.subrange(old(self)@.pos, lx.end)) == token_of(
                    lx.kind,
                )
                &&& final(errors)@.errors == old(errors)@.errors + lx.errors
                &&& final(errors)@.warnings == old(errors)@.warnings + lx.warnings
            }),
    {
        proof {
            use_type_invariant(&*self);
        }
        let blank = blank_at(&self.input, self.pos);
        let (next, end) = scan_lexeme(&self.input, self.pos, blank, errors);
        self.pos = end;
        next
    }

    /// Reads up to and including the next token and moves past it. White
    /// space, comments and stray characters are skipped; the diagnostics of
    /// everything read are recorded. `None` means that the input is used up.
    pub fn next_token(&mut self, errors: &mut ErrorRecorder) -> (r: Option<Token>)
        ensures
            final(self)@.input == old(self)@.input,
            0 <= old(self)@.pos <= final(self)@.pos <= old(self)@.input.len(),
            final(self)@.pos == next_step(old(self)@.input, old(self)@.pos).end,
            match r {
                Some(t) => next_step(old(self)@.input, old(self)@.pos).token == Some(t@),
                None => {
                    &&& next_step(old(self)@.input, old(self)@.pos).token is None
                    &&& final(self)@.pos == old(self)@.input.len()
                },
            },
            final(errors)@.errors == old(errors)@.errors + next_step(
                old(self)@.input,
                old(self)@.pos,
            ).errors,
            final(errors)@.warnings == old(errors)@.warnings + next_step(
                old(self)@.input,
                old(self)@.pos,
            ).warnings,
    {
        let ghost s = self@.input;
        let ghost whole = next_step(s, self@.pos);
        proof {
            use_type_invariant(&*self);
            lemma_lex_unfold(s, self@.pos);
            assert(old(errors)@.errors + whole.errors =~= errors@.errors + whole.errors);
        }
        loop
            invariant
                self@.input == s,
                s == old(self)@.input,
                0 <= old(self)@.pos <= self@.pos <= s.len(),
                whole == next_step(s, old(self)@.pos),
                next_step(s, self@.pos).token == whole.token,
                next_step(s, self@.pos).end == whole.end,
                errors@.errors + next_step(s, self@.pos).errors == old(errors)@.errors
                    + whole.errors,
                errors@.warnings + next_step(s, self@.pos).warnings == old(errors)@.warnings
                    + whole.warnings,
            decreases s.len() - self@.pos,
        {
            let start = self.pos;
            let ghost before = errors@;
            let next = self.next_token_base(errors);
            proof {
                use_type_invariant(&*self);
                if !(next is EOF) {
                    let lx = lexeme_at(s, start as int);
                    let rest = next_step(s, lx.end);
                    if token_of(lx.kind) is None {
                        assert((before.errors + lx.errors) + rest.errors =~= before.errors + (
                        lx.errors + rest.errors));
                        assert((before.warnings + lx.warnings) + rest.warnings =~= before.warnings
                            + (lx.warnings + rest.warnings));
                    }
                } else {
                    assert(errors@.errors + Seq::<Diag>::empty() =~= errors@.errors);
                    assert(errors@.warnings + Seq::<Diag>::empty() =~= errors@.warnings);
                }
            }
            if let NextToken::EOF = next {
                return None;
            }
            let found = token_from(next, &self.input, start, self.pos);
            if found.is_some() {
                return found;
            }
        }
    }

    /// The token that `next_token` would read, without moving the cursor
    /// and without recording any diagnostic.
    pub fn peek_token(&self) -> (r: Option<Token>)
        ensures
            match r {
                Some(t) => next_step(self@.input, self@.pos).token == Some(t@),
                None => next_step(self@.input, self@.pos).token is None,
            },
    {
        proof {
            use_type_invariant(self);
        }
        let mut scratch = ErrorRecorder::new();
        let mut pos: usize = self.pos;
        while pos < self.input.len()
            invariant
                self.pos <= pos <= self.input@.len(),
                next_step(self@.input, pos as int).token == next_step(
                    self@.input,
                    self@.pos,
                ).token,
            decreases self.input.len() - pos,
        {
            let blank = blank_at(&self.input, pos);
            let (next, end) = scan_lexeme(&self.input, pos, blank, &mut scratch);
            let found = token_from(next, &self.input, pos, end);
            if found.is_some() {
                return found;
            }
            pos = end;
        }
        None
    }
}

/// Lexes `input` from start to end: hands back its tokens in source order
/// and records the lexical diagnostics.
pub fn lex(input: &str, errors: &mut ErrorRecorder) -> (tokens: Vec<Token>)
    ensures
        token_views(tokens@) == lex_from(input@, 0).tokens,
        final(errors)@.errors == old(errors)@.errors + lex_from(input@, 0).errors,
        final(errors)@.warnings == old(errors)@.warnings + lex_from(input@, 0).warnings,
{
    let mut stream = CharStream::new(input);
    let mut tokens: Vec<Token> = Vec::new();
    let ghost s = input@;
    proof {
        assert(token_views(tokens@) + lex_from(s, 0).tokens =~= lex_from(s, 0).tokens);
    }
    loop
        invariant
            stream@.input == s,
            s == input@,
            0 <= stream@.pos <= s.len(),
            token_views(tokens@) + lex_from(s, stream@.pos).tokens == lex_from(s, 0).tokens,
            errors@.errors + lex_from(s, stream@.pos).errors == old(errors)@.errors + lex_from(
                s,
                0,
            ).errors,
            errors@.warnings + lex_from(s, stream@.pos).warnings == old(errors)@.warnings
                + lex_from(s, 0).warnings,
        decreases s.len() - stream@.pos,
    {
        let ghost pos = stream@.pos;
        let ghost before = errors@;
        let ghost seen = token_views(tokens@);
        proof {
            lemma_lex_unfold(s, pos);
        }
        let next = stream.next_token(errors);
        proof {
            let step = next_step(s, pos);
            let rest = lex_from(s, step.end);
            assert((before.errors + step.errors) + rest.errors =~= before.errors + (step.errors
                + rest.errors));
            assert((before.warnings + step.warnings) + rest.warnings =~= before.warnings + (
            step.warnings + rest.warnings));
        }
        match next {
            Some(token) => {
                tokens.push(token);
                proof {
                    let step = next_step(s, pos);
                    let rest = lex_from(s, step.end);
                    assert(token_views(tokens@) =~= seen.push(step.token->0));
                    assert(seen.push(step.token->0) + rest.tokens =~= seen + (seq![step.token->0]
                        + rest.tokens));
                }
            },
            None => {
                proof {
                    assert(seen + Seq::<TokenView>::empty() =~= seen);
                    assert(lex_from(s, s.len() as int).errors =~= Seq::<Diag>::empty());
                    assert(lex_from(s, s.len() as int).warnings =~= Seq::<Diag>::empty());
                    assert(errors@.errors + Seq::<Diag>::empty() =~= errors@.errors);
                    assert(errors@.warnings + Seq::<Diag>::empty() =~= errors@.warnings);
                }
                return tokens;
            },
        }
    }
}

} // verus!
