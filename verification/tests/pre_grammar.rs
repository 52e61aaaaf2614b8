use pl0_check::error::ErrorRecorder;
use pl0_check::lex::{lex, Token, TokenEnum};
use pl0_check::pre_grammar::{checked_tokens, label, parse, TokenStream, TypeEnum, VarTable};

fn messages(errors: &ErrorRecorder) -> Vec<(usize, String)> {
    errors.errors().iter().map(|e| (e.offset, e.msg.clone())).collect()
}

fn check(source: &str) -> (Vec<Token>, ErrorRecorder) {
    let mut errors = ErrorRecorder::new();
    let tokens = parse(source, &mut errors);
    (tokens, errors)
}

fn stream_of(source: &str) -> TokenStream {
    let mut errors = ErrorRecorder::new();
    let tokens = lex(source, &mut errors);
    assert!(errors.no_error());
    TokenStream::new(tokens)
}

#[test]
fn a_well_formed_program_has_no_diagnostics() {
    let (tokens, errors) = check("var a: integer; begin a end");
    assert!(errors.no_error());
    assert!(errors.errors().is_empty());
    assert!(errors.warnings().is_empty());
    assert_eq!(tokens.len(), 8);
    let kinds: Vec<TokenEnum> = tokens.iter().map(|t| t.token).collect();
    assert_eq!(
        kinds,
        vec![
            TokenEnum::Var,
            TokenEnum::Identifier,
            TokenEnum::Colon,
            TokenEnum::Integer,
            TokenEnum::SemiColon,
            TokenEnum::Begin,
            TokenEnum::Identifier,
            TokenEnum::End,
        ]
    );
}

#[test]
fn the_output_holds_every_lexical_token_whatever_is_wrong() {
    let source = "x y ; end : begin begin 01 @";
    let mut lexical = ErrorRecorder::new();
    let lexed = lex(source, &mut lexical);
    let (tokens, errors) = check(source);
    assert!(errors.has_errors());
    assert_eq!(tokens.len(), lexed.len());
    for (a, b) in tokens.iter().zip(lexed.iter()) {
        assert_eq!(a.offset, b.offset);
        assert_eq!(a.content, b.content);
        assert_eq!(a.token, b.token);
    }
    assert_eq!(errors.warnings().len(), 1);
}

#[test]
fn a_second_declaration_is_a_duplicate_and_the_first_type_stays() {
    let source = "var a: integer; a: bool;";
    let mut errors = ErrorRecorder::new();
    let mut stream = stream_of(source);
    let vars = stream.var_block(&mut errors);
    assert_eq!(messages(&errors), vec![(16, "duplicate identifier".to_string())]);
    assert_eq!(vars.len(), 1);
    assert_eq!(vars.get("a"), Some(Some(TypeEnum::Integer)));
}

#[test]
fn a_duplicate_within_one_line_is_reported_once() {
    let (_, errors) = check("var a, b, a: real; begin a b end");
    assert_eq!(messages(&errors), vec![(10, "duplicate identifier".to_string())]);
}

#[test]
fn declarations_do_not_regard_case() {
    let (_, errors) = check("var Ab: real; aB: bool; begin AB end");
    assert_eq!(messages(&errors), vec![(14, "duplicate identifier".to_string())]);
}

#[test]
fn every_use_of_an_undeclared_identifier_is_reported() {
    let (_, errors) = check("var y: integer; begin x y X end");
    assert_eq!(
        messages(&errors),
        vec![
            (22, "undeclared identifier: x".to_string()),
            (26, "undeclared identifier: x".to_string()),
        ]
    );
}

#[test]
fn an_open_begin_is_a_missing_end() {
    let (_, errors) = check("begin begin end");
    assert_eq!(messages(&errors), vec![(usize::MAX, "missing end".to_string())]);
}

#[test]
fn an_end_that_closes_nothing_is_unexpected() {
    let (_, errors) = check("begin end end");
    assert_eq!(messages(&errors), vec![(10, "unexpected end".to_string())]);
}

#[test]
fn an_unexpected_end_does_not_close_a_later_begin() {
    let (_, errors) = check("begin end end begin");
    assert_eq!(
        messages(&errors),
        vec![(10, "unexpected end".to_string()), (usize::MAX, "missing end".to_string())]
    );
}

#[test]
fn a_program_may_start_with_begin() {
    let (tokens, errors) = check("begin end");
    assert!(errors.no_error());
    assert_eq!(tokens.len(), 2);
}

#[test]
fn a_program_that_starts_otherwise_lacks_var() {
    let (_, errors) = check("a: integer; begin a end");
    assert_eq!(messages(&errors), vec![(0, "expected var".to_string())]);
}

#[test]
fn the_empty_program_lacks_var_and_begin() {
    let (tokens, errors) = check("");
    assert!(tokens.is_empty());
    assert_eq!(
        messages(&errors),
        vec![
            (usize::MAX, "expected var".to_string()),
            (usize::MAX, "expected begin".to_string()),
        ]
    );
}

#[test]
fn a_missing_colon_is_recorded_and_the_line_goes_on() {
    let (_, errors) = check("var a integer; begin a end");
    assert_eq!(messages(&errors), vec![(6, "expected colon".to_string())]);
}

#[test]
fn a_missing_type_is_recorded_and_the_line_goes_on() {
    let source = "var a: ; b: bool; begin a b end";
    let mut errors = ErrorRecorder::new();
    let mut stream = stream_of(source);
    let vars = stream.var_block(&mut errors);
    assert_eq!(messages(&errors), vec![(7, "expected type".to_string())]);
    assert_eq!(vars.get("a"), Some(None));
    assert_eq!(vars.get("b"), Some(Some(TypeEnum::Bool)));
    assert_eq!(vars.get("c"), None);
    stream.program_block(&vars, &mut errors);
    assert_eq!(errors.errors().len(), 1);
}

#[test]
fn a_missing_semicolon_is_recorded() {
    let (_, errors) = check("var a: longint begin a end");
    assert_eq!(messages(&errors), vec![(15, "expected semicolon".to_string())]);
}

#[test]
fn a_missing_identifier_behind_a_comma_is_recorded_and_the_list_goes_on() {
    let (_, errors) = check("var a, , b, : real; begin a b end");
    assert_eq!(
        messages(&errors),
        vec![(7, "expected identifier".to_string()), (12, "expected identifier".to_string())]
    );
}

#[test]
fn identifiers_are_declared_whatever_else_is_wrong_with_their_line() {
    let (_, errors) = check("var a b; begin a b c end");
    assert_eq!(
        messages(&errors),
        vec![
            (6, "expected colon".to_string()),
            (6, "expected type".to_string()),
            (6, "expected semicolon".to_string()),
            (7, "expected colon".to_string()),
            (7, "expected type".to_string()),
            (19, "undeclared identifier: c".to_string()),
        ]
    );
}

#[test]
fn a_body_without_begin_is_recorded_and_checked() {
    let (_, errors) = check("var a: integer; a x end");
    assert_eq!(
        messages(&errors),
        vec![
            (16, "duplicate identifier".to_string()),
            (18, "expected colon".to_string()),
            (18, "expected type".to_string()),
            (18, "expected semicolon".to_string()),
            (20, "expected colon".to_string()),
            (20, "expected type".to_string()),
            (20, "expected semicolon".to_string()),
            (20, "expected begin".to_string()),
            (20, "unexpected end".to_string()),
        ]
    );
}

#[test]
fn lexical_and_structural_diagnostics_share_one_report() {
    let source = "var a: integer;\nbegin\n  a := 07 @ b\n";
    let (_, errors) = check(source);
    assert_eq!(
        messages(&errors),
        vec![
            (32, "Unexpected character `@`".to_string()),
            (34, "undeclared identifier: b".to_string()),
            (usize::MAX, "missing end".to_string()),
        ]
    );
    assert_eq!(errors.warnings().len(), 1);
    let report = errors.display_with("p.pl0", source);
    assert_eq!(
        report,
        "[p.pl0:3:8] Warning: Number should not start with 0\n      a := 07 @ b\n           ^\n\
         [p.pl0:3:11] Error: Unexpected character `@`\n      a := 07 @ b\n              ^\n\
         [p.pl0:3:13] Error: undeclared identifier: b\n      a := 07 @ b\n                ^\n\
         [p.pl0:4:1] Error: missing end\n    \n    ^\n"
    );
}

#[test]
fn tokens_are_put_out_only_without_errors() {
    let mut clean = ErrorRecorder::new();
    let tokens = checked_tokens("var a: integer; begin a := 01 end", &mut clean);
    assert_eq!(tokens.map(|t| t.len()), Some(10));
    assert_eq!(clean.warnings().len(), 1);
    let mut broken = ErrorRecorder::new();
    assert!(checked_tokens("var a: integer; begin b end", &mut broken).is_none());
    assert_eq!(broken.errors().len(), 1);
    let mut spoilt = ErrorRecorder::new();
    spoilt.error(0, "earlier");
    assert!(checked_tokens("begin end", &mut spoilt).is_none());
}

#[test]
fn peek_and_next_walk_the_tokens() {
    let mut stream = stream_of("var a");
    assert_eq!(stream.peek(), Some(&TokenEnum::Var));
    assert_eq!(stream.peek_pos(), 0);
    assert_eq!(stream.next().map(|t| t.token), Some(TokenEnum::Var));
    assert_eq!(stream.peek(), Some(&TokenEnum::Identifier));
    assert_eq!(stream.peek_pos(), 4);
    assert_eq!(stream.next().map(|t| t.content.clone()), Some("a".to_string()));
    assert_eq!(stream.peek(), None);
    assert_eq!(stream.peek_pos(), usize::MAX);
    assert!(stream.next().is_none());
    assert!(stream.next().is_none());
}

#[test]
fn expect_consumes_only_what_it_asks_for() {
    let mut errors = ErrorRecorder::new();
    let mut stream = stream_of("; :");
    assert!(stream.expect(TokenEnum::Colon, &mut errors).is_none());
    assert_eq!(messages(&errors), vec![(0, "expected colon".to_string())]);
    assert_eq!(stream.peek_pos(), 0);
    let found = stream.expect(TokenEnum::SemiColon, &mut errors).map(|t| t.offset);
    assert_eq!(found, Some(0));
    assert_eq!(stream.peek_pos(), 2);
    assert!(stream.expect(TokenEnum::Colon, &mut errors).is_some());
    assert!(stream.expect(TokenEnum::Begin, &mut errors).is_none());
    assert_eq!(
        messages(&errors),
        vec![(0, "expected colon".to_string()), (usize::MAX, "expected begin".to_string())]
    );
}

#[test]
fn identifier_hands_back_name_and_offset() {
    let mut errors = ErrorRecorder::new();
    let mut stream = stream_of("  Foo 1");
    assert_eq!(stream.identifier(&mut errors), Some(("foo".to_string(), 2)));
    assert_eq!(stream.identifier(&mut errors), None);
    assert_eq!(messages(&errors), vec![(6, "expected identifier".to_string())]);
    assert_eq!(stream.peek(), Some(&TokenEnum::IntLiteral));
}

#[test]
fn identifier_list_reads_to_the_first_token_that_is_no_comma() {
    let mut errors = ErrorRecorder::new();
    let mut vars = VarTable::new();
    let mut stream = stream_of("a, b ,c d");
    assert_eq!(
        stream.identifier_list(&mut vars, &mut errors),
        vec![("a".to_string(), 0), ("b".to_string(), 3), ("c".to_string(), 6)]
    );
    assert!(errors.no_error());
    assert_eq!(stream.peek_pos(), 8);
    assert_eq!(vars.len(), 3);
    assert_eq!(vars.get("b"), Some(None));
    let mut odd = stream_of(": a");
    assert!(odd.identifier_list(&mut vars, &mut errors).is_empty());
    assert_eq!(messages(&errors), vec![(0, "expected identifier".to_string())]);
    assert_eq!(odd.peek_pos(), 0);
    assert_eq!(vars.len(), 3);
}

#[test]
fn identifier_list_records_duplicates_as_it_reads() {
    let mut errors = ErrorRecorder::new();
    let mut vars = VarTable::new();
    vars.declare("b".to_string(), Some(TypeEnum::Real));
    let mut stream = stream_of("a, b, , a, c");
    assert_eq!(
        stream.identifier_list(&mut vars, &mut errors),
        vec![
            ("a".to_string(), 0),
            ("b".to_string(), 3),
            ("a".to_string(), 8),
            ("c".to_string(), 11),
        ]
    );
    assert_eq!(
        messages(&errors),
        vec![
            (3, "duplicate identifier".to_string()),
            (6, "expected identifier".to_string()),
            (8, "duplicate identifier".to_string()),
        ]
    );
    assert_eq!(vars.len(), 3);
    assert_eq!(vars.get("b"), Some(Some(TypeEnum::Real)));
    assert_eq!(vars.get("a"), Some(None));
}

#[test]
fn def_line_declares_the_identifiers_of_one_line() {
    let mut errors = ErrorRecorder::new();
    let mut stream = stream_of("a, b: real; c: bool;");
    let mut vars = VarTable::new();
    stream.def_line(&mut vars, &mut errors);
    assert!(errors.no_error());
    assert_eq!(vars.len(), 2);
    assert!(vars.contains_key("a"));
    assert!(vars.contains_key("b"));
    assert!(!vars.contains_key("c"));
    assert_eq!(vars.get("b"), Some(Some(TypeEnum::Real)));
    assert_eq!(stream.peek_pos(), 12);
    stream.def_line(&mut vars, &mut errors);
    assert_eq!(vars.get("a"), Some(Some(TypeEnum::Real)));
    assert_eq!(vars.get("c"), Some(Some(TypeEnum::Bool)));
}

#[test]
fn assign_from_types_the_later_declarations() {
    let mut vars = VarTable::new();
    vars.declare("a".to_string(), None);
    vars.declare("b".to_string(), None);
    vars.declare("c".to_string(), Some(TypeEnum::Bool));
    vars.assign_from(1, TypeEnum::Longint);
    assert_eq!(vars.get("a"), Some(None));
    assert_eq!(vars.get("b"), Some(Some(TypeEnum::Longint)));
    assert_eq!(vars.get("c"), Some(Some(TypeEnum::Longint)));
    vars.assign_from(3, TypeEnum::Real);
    vars.assign_from(9, TypeEnum::Real);
    assert_eq!(vars.get("c"), Some(Some(TypeEnum::Longint)));
    assert_eq!(vars.len(), 3);
}

#[test]
fn code_consumes_every_token() {
    let mut errors = ErrorRecorder::new();
    let mut stream = stream_of("var a: integer; begin a end");
    stream.code(&mut errors);
    assert!(errors.no_error());
    assert_eq!(stream.peek(), None);
    assert_eq!(stream.into_consumed().len(), 8);
}

#[test]
fn consumed_tokens_are_those_in_front_of_the_stream() {
    let mut stream = stream_of("var a: integer;");
    stream.next();
    stream.next();
    let copy = stream.clone();
    let consumed = stream.into_consumed();
    assert_eq!(consumed.len(), 2);
    assert_eq!(consumed[1].content, "a");
    assert_eq!(copy.peek(), Some(&TokenEnum::Colon));
}

#[test]
fn the_table_keeps_the_first_declaration() {
    let mut vars = VarTable::new();
    assert!(vars.declare("a".to_string(), Some(TypeEnum::Integer)));
    assert!(vars.declare("b".to_string(), None));
    assert!(!vars.declare("a".to_string(), Some(TypeEnum::Bool)));
    assert!(!vars.declare("b".to_string(), Some(TypeEnum::Bool)));
    assert_eq!(vars.len(), 2);
    assert_eq!(vars.get("a"), Some(Some(TypeEnum::Integer)));
    assert_eq!(vars.get("b"), Some(None));
    assert_eq!(vars.get("A"), None);
}

#[test]
fn only_type_keywords_name_a_type() {
    assert_eq!(TypeEnum::try_from(TokenEnum::Integer), Ok(TypeEnum::Integer));
    assert_eq!(TypeEnum::try_from(TokenEnum::Longint), Ok(TypeEnum::Longint));
    assert_eq!(TypeEnum::try_from(TokenEnum::Bool), Ok(TypeEnum::Bool));
    assert_eq!(TypeEnum::try_from(TokenEnum::Real), Ok(TypeEnum::Real));
    assert_eq!(TypeEnum::try_from(TokenEnum::Var), Err(TokenEnum::Var));
    assert_eq!(TypeEnum::try_from(TokenEnum::Identifier), Err(TokenEnum::Identifier));
}

#[test]
fn every_kind_of_token_has_its_label() {
    assert_eq!(label(TokenEnum::Var), "var");
    assert_eq!(label(TokenEnum::Begin), "begin");
    assert_eq!(label(TokenEnum::Colon), "colon");
    assert_eq!(label(TokenEnum::SemiColon), "semicolon");
    assert_eq!(label(TokenEnum::Identifier), "identifier");
    assert_eq!(label(TokenEnum::IntLiteral), "intliteral");
    assert_eq!(label(TokenEnum::Assign), "assign");
}
