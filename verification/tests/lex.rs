use pl0_check::error::ErrorRecorder;
use pl0_check::lex::{lex, scan_lexeme, CharStream, NextToken, Token, TokenEnum};

fn kinds(tokens: &[Token]) -> Vec<TokenEnum> {
    tokens.iter().map(|t| t.token).collect()
}

fn contents(tokens: &[Token]) -> Vec<String> {
    tokens.iter().map(|t| t.content.clone()).collect()
}

fn offsets(tokens: &[Token]) -> Vec<usize> {
    tokens.iter().map(|t| t.offset).collect()
}

#[test]
fn keywords_are_matched_without_regard_to_case() {
    let mut errors = ErrorRecorder::new();
    let tokens = lex(
        "var IF Then eLsE WHILE do Begin END and Or integer LONGINT bool Real",
        &mut errors,
    );
    assert_eq!(
        kinds(&tokens),
        vec![
            TokenEnum::Var,
            TokenEnum::If,
            TokenEnum::Then,
            TokenEnum::Else,
            TokenEnum::While,
            TokenEnum::Do,
            TokenEnum::Begin,
            TokenEnum::End,
            TokenEnum::And,
            TokenEnum::Or,
            TokenEnum::Integer,
            TokenEnum::Longint,
            TokenEnum::Bool,
            TokenEnum::Real,
        ]
    );
    assert_eq!(tokens[1].content, "IF");
    assert_eq!(tokens[3].content, "eLsE");
    assert!(errors.no_error());
    assert!(errors.warnings().is_empty());
}

#[test]
fn identifiers_are_folded_to_lower_case() {
    let mut errors = ErrorRecorder::new();
    let tokens = lex("Foo bAr9 vary x1Y2", &mut errors);
    assert_eq!(kinds(&tokens), vec![TokenEnum::Identifier; 4]);
    assert_eq!(contents(&tokens), vec!["foo", "bar9", "vary", "x1y2"]);
    assert_eq!(offsets(&tokens), vec![0, 4, 9, 14]);
    assert!(errors.no_error());
}

#[test]
fn symbols_take_the_longest_match() {
    let mut errors = ErrorRecorder::new();
    let tokens = lex("+ - * / := : <> <= < >= > = ( ) , ;", &mut errors);
    assert_eq!(
        kinds(&tokens),
        vec![
            TokenEnum::Add,
            TokenEnum::Sub,
            TokenEnum::Mul,
            TokenEnum::Div,
            TokenEnum::Assign,
            TokenEnum::Colon,
            TokenEnum::Ne,
            TokenEnum::Le,
            TokenEnum::Lt,
            TokenEnum::Ge,
            TokenEnum::Gt,
            TokenEnum::Eq,
            TokenEnum::LParen,
            TokenEnum::RParen,
            TokenEnum::Comma,
            TokenEnum::SemiColon,
        ]
    );
    assert_eq!(
        contents(&tokens),
        vec!["+", "-", "*", "/", ":=", ":", "<>", "<=", "<", ">=", ">", "=", "(", ")", ",", ";"]
    );
    assert!(errors.no_error());
}

#[test]
fn symbols_need_no_space_between_them() {
    let mut errors = ErrorRecorder::new();
    let tokens = lex("a:=b<=c<>d>=e::=<<>", &mut errors);
    assert_eq!(
        kinds(&tokens),
        vec![
            TokenEnum::Identifier,
            TokenEnum::Assign,
            TokenEnum::Identifier,
            TokenEnum::Le,
            TokenEnum::Identifier,
            TokenEnum::Ne,
            TokenEnum::Identifier,
            TokenEnum::Ge,
            TokenEnum::Identifier,
            TokenEnum::Colon,
            TokenEnum::Assign,
            TokenEnum::Lt,
            TokenEnum::Ne,
        ]
    );
    assert!(errors.no_error());
}

#[test]
fn a_single_equals_sign_is_equality() {
    let mut errors = ErrorRecorder::new();
    let tokens = lex("a = b == c", &mut errors);
    assert_eq!(
        kinds(&tokens),
        vec![
            TokenEnum::Identifier,
            TokenEnum::Eq,
            TokenEnum::Identifier,
            TokenEnum::Eq,
            TokenEnum::Eq,
            TokenEnum::Identifier,
        ]
    );
    assert_eq!(offsets(&tokens), vec![0, 2, 4, 6, 7, 9]);
    assert!(errors.no_error());
}

#[test]
fn a_numeral_with_leading_zeros_is_normalized_with_one_warning() {
    let mut errors = ErrorRecorder::new();
    let tokens = lex("007", &mut errors);
    assert_eq!(tokens.len(), 1);
    assert_eq!(tokens[0].token, TokenEnum::IntLiteral);
    assert_eq!(tokens[0].content, "7");
    assert_eq!(tokens[0].offset, 0);
    assert!(errors.no_error());
    assert_eq!(errors.warnings().len(), 1);
    assert_eq!(errors.warnings()[0].offset, 0);
    assert_eq!(errors.warnings()[0].msg, "Number should not start with 0");
}

#[test]
fn the_numeral_zero_is_left_alone() {
    let mut errors = ErrorRecorder::new();
    let tokens = lex("0", &mut errors);
    assert_eq!(tokens.len(), 1);
    assert_eq!(tokens[0].token, TokenEnum::IntLiteral);
    assert_eq!(tokens[0].content, "0");
    assert!(errors.no_error());
    assert!(errors.warnings().is_empty());
}

#[test]
fn a_numeral_of_zeros_becomes_a_single_zero() {
    let mut errors = ErrorRecorder::new();
    let tokens = lex("x 000 0100 42", &mut errors);
    assert_eq!(contents(&tokens), vec!["x", "0", "100", "42"]);
    assert_eq!(offsets(&tokens), vec![0, 2, 6, 11]);
    assert!(errors.no_error());
    assert_eq!(errors.warnings().len(), 2);
    assert_eq!(errors.warnings()[0].offset, 2);
    assert_eq!(errors.warnings()[1].offset, 6);
}

#[test]
fn a_letter_right_behind_a_numeral_is_an_error_and_lexing_goes_on() {
    let mut errors = ErrorRecorder::new();
    let tokens = lex("12ab 3", &mut errors);
    assert_eq!(
        kinds(&tokens),
        vec![TokenEnum::IntLiteral, TokenEnum::Identifier, TokenEnum::IntLiteral]
    );
    assert_eq!(contents(&tokens), vec!["12", "ab", "3"]);
    assert_eq!(offsets(&tokens), vec![0, 2, 5]);
    assert_eq!(errors.errors().len(), 1);
    assert_eq!(errors.errors()[0].offset, 2);
    assert_eq!(errors.errors()[0].msg, "unexpected character after number");
    assert!(errors.warnings().is_empty());
}

#[test]
fn a_numeral_can_earn_both_an_error_and_a_warning() {
    let mut errors = ErrorRecorder::new();
    let tokens = lex("01x", &mut errors);
    assert_eq!(contents(&tokens), vec!["1", "x"]);
    assert_eq!(errors.errors().len(), 1);
    assert_eq!(errors.errors()[0].offset, 2);
    assert_eq!(errors.warnings().len(), 1);
    assert_eq!(errors.warnings()[0].offset, 0);
}

#[test]
fn only_ascii_digits_make_a_numeral() {
    let mut errors = ErrorRecorder::new();
    let tokens = lex("1\u{0663}2", &mut errors);
    assert_eq!(contents(&tokens), vec!["1", "2"]);
    assert_eq!(offsets(&tokens), vec![0, 2]);
    assert_eq!(errors.errors().len(), 1);
    assert_eq!(errors.errors()[0].offset, 1);
    assert_eq!(errors.errors()[0].msg, "Unexpected character `\u{0663}`");
}

#[test]
fn comments_run_to_the_end_of_the_line() {
    let mut errors = ErrorRecorder::new();
    let tokens = lex("a // b c @ 01x\nd / e", &mut errors);
    assert_eq!(
        kinds(&tokens),
        vec![
            TokenEnum::Identifier,
            TokenEnum::Identifier,
            TokenEnum::Div,
            TokenEnum::Identifier,
        ]
    );
    assert_eq!(offsets(&tokens), vec![0, 15, 17, 19]);
    assert!(errors.no_error());
    assert!(errors.warnings().is_empty());
}

#[test]
fn a_comment_without_a_newline_runs_to_the_end_of_the_input() {
    let mut errors = ErrorRecorder::new();
    let tokens = lex("a // the rest", &mut errors);
    assert_eq!(contents(&tokens), vec!["a"]);
    assert!(errors.no_error());
    let mut bare = ErrorRecorder::new();
    assert!(lex("//", &mut bare).is_empty());
    assert!(bare.no_error());
}

#[test]
fn a_stray_character_is_reported_and_skipped() {
    let mut errors = ErrorRecorder::new();
    let tokens = lex("a @ b#c", &mut errors);
    assert_eq!(contents(&tokens), vec!["a", "b", "c"]);
    assert_eq!(offsets(&tokens), vec![0, 4, 6]);
    assert_eq!(errors.errors().len(), 2);
    assert_eq!(errors.errors()[0].offset, 2);
    assert_eq!(errors.errors()[0].msg, "Unexpected character `@`");
    assert_eq!(errors.errors()[1].offset, 5);
    assert_eq!(errors.errors()[1].msg, "Unexpected character `#`");
}

#[test]
fn white_space_of_any_script_separates_tokens() {
    let mut errors = ErrorRecorder::new();
    let tokens = lex("a\u{a0}b\u{3000}c\t\r\nd", &mut errors);
    assert_eq!(contents(&tokens), vec!["a", "b", "c", "d"]);
    assert_eq!(offsets(&tokens), vec![0, 2, 4, 8]);
    assert!(errors.no_error());
}

#[test]
fn a_letter_of_another_script_is_a_stray_character() {
    let mut errors = ErrorRecorder::new();
    let tokens = lex("a\u{e9}b", &mut errors);
    assert_eq!(contents(&tokens), vec!["a", "b"]);
    assert_eq!(errors.errors().len(), 1);
    assert_eq!(errors.errors()[0].offset, 1);
}

#[test]
fn the_empty_input_has_no_tokens() {
    let mut errors = ErrorRecorder::new();
    assert!(lex("", &mut errors).is_empty());
    assert!(lex("  \n\t ", &mut errors).is_empty());
    assert!(errors.no_error());
}

#[test]
fn lex_appends_to_what_the_recorder_holds() {
    let mut errors = ErrorRecorder::new();
    errors.error(9, "earlier");
    errors.warning(8, "earlier too");
    lex("01 @", &mut errors);
    assert_eq!(errors.errors().len(), 2);
    assert_eq!(errors.errors()[0].msg, "earlier");
    assert_eq!(errors.errors()[1].offset, 3);
    assert_eq!(errors.warnings().len(), 2);
    assert_eq!(errors.warnings()[0].msg, "earlier too");
    assert_eq!(errors.warnings()[1].offset, 0);
}

#[test]
fn peek_and_next_walk_the_characters() {
    let mut stream = CharStream::new("a\u{e9}");
    assert_eq!(stream.pos(), 0);
    assert_eq!(stream.peek(), Some('a'));
    assert_eq!(stream.peek(), Some('a'));
    assert_eq!(stream.pos(), 0);
    assert_eq!(stream.next(), Some('a'));
    assert_eq!(stream.pos(), 1);
    assert_eq!(stream.next(), Some('\u{e9}'));
    assert_eq!(stream.pos(), 2);
    assert_eq!(stream.peek(), None);
    assert_eq!(stream.next(), None);
    assert_eq!(stream.pos(), 2);
}

#[test]
fn next_token_skips_what_holds_no_token() {
    let mut errors = ErrorRecorder::new();
    let mut stream = CharStream::new("  // c\n @ foo 1");
    let first = stream.next_token(&mut errors).unwrap();
    assert_eq!(first.token, TokenEnum::Identifier);
    assert_eq!(first.content, "foo");
    assert_eq!(first.offset, 10);
    assert_eq!(stream.pos(), 13);
    assert_eq!(errors.errors().len(), 1);
    assert_eq!(errors.errors()[0].offset, 8);
    let second = stream.next_token(&mut errors).unwrap();
    assert_eq!(second.token, TokenEnum::IntLiteral);
    assert_eq!(second.offset, 14);
    assert!(stream.next_token(&mut errors).is_none());
    assert!(stream.next_token(&mut errors).is_none());
    assert_eq!(stream.pos(), 15);
    assert_eq!(errors.errors().len(), 1);
}

#[test]
fn next_token_base_reads_one_lexeme() {
    let mut errors = ErrorRecorder::new();
    let mut stream = CharStream::new(" Ab 007 := @");
    assert!(matches!(stream.next_token_base(&mut errors), NextToken::Blank));
    assert_eq!(stream.pos(), 1);
    match stream.next_token_base(&mut errors) {
        NextToken::WithContent(TokenEnum::Identifier, content) => assert_eq!(content, "ab"),
        other => panic!("not an identifier: {:?}", other),
    }
    assert_eq!(stream.pos(), 3);
    assert!(matches!(stream.next_token_base(&mut errors), NextToken::Blank));
    match stream.next_token_base(&mut errors) {
        NextToken::WithContent(TokenEnum::IntLiteral, content) => assert_eq!(content, "7"),
        other => panic!("not a literal: {:?}", other),
    }
    assert_eq!(stream.pos(), 7);
    assert!(matches!(stream.next_token_base(&mut errors), NextToken::Blank));
    assert!(matches!(stream.next_token_base(&mut errors), NextToken::Type(TokenEnum::Assign)));
    assert_eq!(stream.pos(), 10);
    assert!(matches!(stream.next_token_base(&mut errors), NextToken::Blank));
    assert!(errors.no_error());
    assert!(matches!(stream.next_token_base(&mut errors), NextToken::Blank));
    assert_eq!(stream.pos(), 12);
    assert_eq!(errors.errors().len(), 1);
    assert!(matches!(stream.next_token_base(&mut errors), NextToken::EOF));
    assert_eq!(stream.pos(), 12);
    assert_eq!(errors.errors().len(), 1);
    assert_eq!(errors.warnings().len(), 1);
}

#[test]
fn peek_token_neither_moves_nor_records() {
    let mut errors = ErrorRecorder::new();
    let mut stream = CharStream::new(" @ 01x y");
    let ahead = stream.peek_token().unwrap();
    assert_eq!(ahead.token, TokenEnum::IntLiteral);
    assert_eq!(ahead.content, "1");
    assert_eq!(ahead.offset, 3);
    assert_eq!(stream.pos(), 0);
    let again = stream.peek_token().unwrap();
    assert_eq!(again.offset, 3);
    let read = stream.next_token(&mut errors).unwrap();
    assert_eq!(read.token, ahead.token);
    assert_eq!(read.content, ahead.content);
    assert_eq!(read.offset, ahead.offset);
    assert_eq!(errors.errors().len(), 2);
    assert_eq!(errors.warnings().len(), 1);
    assert_eq!(stream.peek_token().unwrap().content, "x");
    stream.next_token(&mut errors);
    stream.next_token(&mut errors);
    assert!(stream.peek_token().is_none());
}

#[test]
fn a_cloned_stream_stands_where_the_stream_stands() {
    let mut errors = ErrorRecorder::new();
    let mut stream = CharStream::new("a b");
    stream.next_token(&mut errors);
    let mut copy = stream.clone();
    assert_eq!(copy.pos(), stream.pos());
    assert_eq!(copy.next_token(&mut errors).unwrap().content, "b");
    assert_eq!(stream.next_token(&mut errors).unwrap().content, "b");
}

#[test]
fn every_character_lies_in_one_token_or_is_skipped() {
    let source = "var Ab, c1: integer; // note\nbegin ab := 007 <> c1 @ end";
    let chars: Vec<char> = source.chars().collect();
    let mut errors = ErrorRecorder::new();
    let mut stream = CharStream::new(source);
    let mut covered = vec![0usize; chars.len()];
    let mut last_end = 0;
    while let Some(token) = stream.next_token(&mut errors) {
        assert!(token.offset >= last_end);
        assert!(token.offset < stream.pos());
        for slot in covered[token.offset..stream.pos()].iter_mut() {
            *slot += 1;
        }
        last_end = stream.pos();
    }
    assert_eq!(stream.pos(), chars.len());
    let comment = 21..29;
    let stray = 51;
    for (offset, c) in chars.iter().enumerate() {
        if c.is_whitespace() || comment.contains(&offset) || offset == stray {
            assert_eq!(covered[offset], 0, "offset {}", offset);
        } else {
            assert_eq!(covered[offset], 1, "offset {}", offset);
        }
    }
    assert_eq!(errors.errors().len(), 1);
    assert_eq!(errors.errors()[0].offset, stray);
}

#[test]
fn a_cloned_token_is_the_same_token() {
    let token = Token { offset: 3, content: "abc".to_string(), token: TokenEnum::Identifier };
    let copy = token.clone();
    assert_eq!(copy.offset, 3);
    assert_eq!(copy.content, "abc");
    assert_eq!(copy.token, TokenEnum::Identifier);
}

#[test]
fn scan_lexeme_reads_one_lexeme_at_an_offset() {
    let input: Vec<char> = "ab:=07x".chars().collect();
    let mut errors = ErrorRecorder::new();
    match scan_lexeme(&input, 0, false, &mut errors) {
        (NextToken::WithContent(TokenEnum::Identifier, content), 2) => assert_eq!(content, "ab"),
        other => panic!("not the identifier: {:?}", other),
    }
    assert!(matches!(
        scan_lexeme(&input, 2, false, &mut errors),
        (NextToken::Type(TokenEnum::Assign), 4)
    ));
    assert!(matches!(
        scan_lexeme(&input, 3, false, &mut errors),
        (NextToken::Type(TokenEnum::Eq), 4)
    ));
    assert!(errors.no_error());
    match scan_lexeme(&input, 4, false, &mut errors) {
        (NextToken::WithContent(TokenEnum::IntLiteral, content), 6) => assert_eq!(content, "7"),
        other => panic!("not the literal: {:?}", other),
    }
    assert_eq!(errors.errors().len(), 1);
    assert_eq!(errors.errors()[0].offset, 6);
    assert_eq!(errors.warnings().len(), 1);
    assert_eq!(errors.warnings()[0].offset, 4);
}

#[test]
fn scan_lexeme_takes_the_callers_word_on_white_space() {
    let input: Vec<char> = "a b".chars().collect();
    let mut errors = ErrorRecorder::new();
    assert!(matches!(scan_lexeme(&input, 0, true, &mut errors), (NextToken::Blank, 1)));
    assert!(matches!(scan_lexeme(&input, 1, true, &mut errors), (NextToken::Blank, 2)));
    assert!(errors.no_error());
    assert!(matches!(scan_lexeme(&input, 1, false, &mut errors), (NextToken::Blank, 2)));
    assert_eq!(errors.errors().len(), 1);
    assert_eq!(errors.errors()[0].msg, "Unexpected character ` `");
}

#[test]
fn scan_lexeme_behind_the_input_reads_nothing() {
    let input: Vec<char> = "a".chars().collect();
    let mut errors = ErrorRecorder::new();
    assert!(matches!(scan_lexeme(&input, 1, false, &mut errors), (NextToken::EOF, 1)));
    assert!(matches!(scan_lexeme(&input, 9, true, &mut errors), (NextToken::EOF, 9)));
    assert!(errors.no_error());
}

#[test]
fn a_comment_lexeme_ends_behind_its_newline() {
    let input: Vec<char> = "//a\nb//".chars().collect();
    let mut errors = ErrorRecorder::new();
    assert!(matches!(scan_lexeme(&input, 0, false, &mut errors), (NextToken::Blank, 4)));
    assert!(matches!(scan_lexeme(&input, 5, false, &mut errors), (NextToken::Blank, 7)));
    assert!(matches!(
        scan_lexeme(&input, 6, false, &mut errors),
        (NextToken::Type(TokenEnum::Div), 7)
    ));
    assert!(errors.no_error());
}
