use p4_analyzer::preprocessor::evaluate::Definitions;
use std::collections::VecDeque;

use p4_analyzer::base_abstractions::{FileId, Span};
use p4_analyzer::lexer::{try_lex, Token};
use p4_analyzer::preprocessor::parser::{exp3, expression, factor};
use p4_analyzer::preprocessor::state::{PreprocessorState, SourceFile};
use p4_analyzer::preprocessor::PreprocessorBinOp as Op;
use p4_analyzer::preprocessor::PreprocessorExpression::{BinOp, Identifier, IntLiteral};

fn queue(file: FileId, s: &str) -> VecDeque<(FileId, Token, Span)> {
    let lexed = try_lex(file, s).unwrap();
    lexed.lexemes.into_iter().map(|(tk, span)| (file, tk, span)).collect()
}

fn preprocess(s: &str, errors: &mut Vec<String>) -> Vec<Token> {
    let mut pp = PreprocessorState::new();
    let mut lexemes = queue(FileId { id: 0 }, s);
    let r = pp.preprocess(&mut lexemes, &vec![]).unwrap().into_iter().map(|(_, tk, _)| tk).collect();
    errors.clear();
    for (_, msg) in pp.errors() {
        errors.push(msg.clone())
    }
    r
}

fn check_pp(s: &str, expected: Vec<Token>, expected_errors: Vec<String>) {
    let mut errors = vec![];
    assert_eq!(preprocess(s, &mut errors), expected);
    assert_eq!(errors, expected_errors);
}

fn ident(s: &str) -> Token {
    Token::Identifier(s.to_string())
}

fn foo_only() -> Vec<Token> {
    vec![Token::Whitespace, ident("foo"), Token::Whitespace]
}

#[test]
fn parse_factors() {
    assert_eq!(factor("foo"), Some(("".to_string(), Identifier("foo".to_string()))));
    assert_eq!(factor("123 asdf"), Some(("asdf".to_string(), IntLiteral(123))));
    assert_eq!(factor("0xff asdf"), Some(("asdf".to_string(), IntLiteral(255))));
}

#[test]
fn parse_terms() {
    assert_eq!(exp3("foo"), Some(("".to_string(), Identifier("foo".to_string()))));
    assert_eq!(exp3("123 asdf"), Some(("asdf".to_string(), IntLiteral(123))));
    assert_eq!(exp3("0xff asdf"), Some(("asdf".to_string(), IntLiteral(255))));

    assert_eq!(
        exp3("foo * bar"),
        Some((
            "".to_string(),
            BinOp(Op::Times, Identifier("foo".to_string()).into(), Identifier("bar".to_string()).into())
        ))
    );
    assert_eq!(
        exp3("12 / asdf"),
        Some(("".to_string(), BinOp(Op::Divide, IntLiteral(12).into(), Identifier("asdf".to_string()).into())))
    );
}

#[test]
fn parse_expressions() {
    assert_eq!(
        expression("foo * bar"),
        Some((
            "".to_string(),
            BinOp(Op::Times, Identifier("foo".to_string()).into(), Identifier("bar".to_string()).into())
        ))
    );
    assert_eq!(
        expression("12 / asdf"),
        Some(("".to_string(), BinOp(Op::Divide, IntLiteral(12).into(), Identifier("asdf".to_string()).into())))
    );
    assert_eq!(
        expression("1 + (2)"),
        Some(("".to_string(), BinOp(Op::Plus, IntLiteral(1).into(), IntLiteral(2).into())))
    )
}

#[test]
fn conditional_inclusion() {
    check_pp(
        r##"
				#if 1
				foo
				#else
				problem
				#endif
			"##,
        foo_only(),
        vec![],
    );

    check_pp(
        r##"
				#if 0
				problem
				#else
				foo
				#endif
			"##,
        foo_only(),
        vec![],
    );

    check_pp(
        r##"
				#if 0
				problem
				#elif 0
				problem
				#endif
				foo
			"##,
        foo_only(),
        vec![],
    );

    check_pp(
        r##"
				#if 0
				problem
				#elif 1
				foo
				#endif
			"##,
        foo_only(),
        vec![],
    );

    check_pp(
        r##"
				#if 0
				problem
				#elif 0
				problem
				#elif 2 -2
				problem
				#else
				foo
				#endif
			"##,
        foo_only(),
        vec![],
    );
}

#[test]
fn complex_conditions() {
    let pp = PreprocessorState::new();

    let expr = expression("1 - ( 2 ) + 1").unwrap().1;
    assert_eq!(pp.interpret_pp_expr(&expr), Some(0));

    check_pp(
        r##"
				#if 3-2*(8-6)+1
				problem
				#else
				foo
				#endif
			"##,
        foo_only(),
        vec![],
    );
}

#[test]
fn invalid_input() {
    check_pp(
        r##"
			#if 1
			foo
			#else
			// missing #endif
			problem
		"##,
        vec![Token::Whitespace, ident("foo"), Token::Whitespace],
        vec!["This #if directive lacks a corresponding #endif".to_string()],
    );

    check_pp(
        r##"
			#if 0
			problem
			#else
			// missing #endif
			foo
		"##,
        vec![Token::Whitespace, Token::Comment, Token::Whitespace, ident("foo"), Token::Whitespace],
        vec!["This #if directive lacks a corresponding #endif".to_string()],
    );

    check_pp(
        r##"
			foo
			#else
			// dangling #else
			bar
		"##,
        vec![
            Token::Whitespace,
            ident("foo"),
            Token::Whitespace,
            Token::Comment,
            Token::Whitespace,
            ident("bar"),
            Token::Whitespace,
        ],
        vec!["Dangling #else".to_string()],
    );

    check_pp(
        r##"
			#if 1
			foo
			#else
			nope
			#else
			problem
			#endif
			bar
		"##,
        vec![Token::Whitespace, ident("foo"), Token::Whitespace, ident("bar"), Token::Whitespace],
        vec!["This conditional already has an #else".to_string()],
    );
}

#[test]
fn defines() {
    check_pp(
        r##"
			#define x 1
			#if x
			foo
			#else
			problem
			#endif
		"##,
        foo_only(),
        vec![],
    )
}

#[test]
fn simplifier_basic() {}

#[test]
fn basic() {}

#[test]
fn preprocess_reads_included_file() {
    let main = queue(FileId { id: 7 }, "\n#include <bar.p4>\nfoo 321\n");
    let bar = try_lex(FileId { id: 0 }, "bar 123").unwrap();
    let sources = vec![SourceFile { path: "bar.p4".to_string(), lexemes: Some(bar.lexemes) }];
    let mut pp = PreprocessorState::new();
    let mut input = main;
    let out: Vec<(u32, Token)> =
        pp.preprocess(&mut input, &sources).unwrap().into_iter().map(|(f, tk, _)| (f.id, tk)).collect();
    // the tokens of an included file are queued one by one at the front, so they come out reversed
    assert_eq!(
        out,
        vec![
            (7, Token::Whitespace),
            (0, Token::Integer(p4_analyzer::lexer::Literal { base: 10, signed: false, width: None, value: 123 })),
            (0, Token::Whitespace),
            (0, ident("bar")),
            (7, ident("foo")),
            (7, Token::Whitespace),
            (7, Token::Integer(p4_analyzer::lexer::Literal { base: 10, signed: false, width: None, value: 321 })),
            (7, Token::Whitespace),
        ]
    );
    assert!(pp.errors().is_empty());
}

#[test]
fn preprocess_reports_missing_and_recursive_files() {
    let mut pp = PreprocessorState::new();
    let mut input = queue(FileId { id: 3 }, "#include \"nowhere.p4\"\n");
    // the directive takes its line break with it
    let out = pp.preprocess(&mut input, &vec![]).unwrap();
    assert_eq!(out.len(), 0);
    assert_eq!(pp.errors()[0].1, "Could not find nowhere.p4".to_string());

    let selfref = try_lex(FileId { id: 0 }, "#include <a.p4>\nx").unwrap();
    let sources = vec![SourceFile { path: "a.p4".to_string(), lexemes: Some(selfref.lexemes) }];
    let mut pp = PreprocessorState::new();
    let mut input = queue(FileId { id: 5 }, "#include <a.p4>");
    let out: Vec<Token> = pp.preprocess(&mut input, &sources).unwrap().into_iter().map(|(_, tk, _)| tk).collect();
    // the included tokens are queued in reverse, so `x` comes before the nested directive
    assert_eq!(out, vec![ident("x")]);
    assert_eq!(pp.errors().len(), 1);
    assert_eq!(pp.errors()[0].1, "Recursive import of a.p4".to_string());

    let sources = vec![SourceFile { path: "gone.p4".to_string(), lexemes: None }];
    let mut pp = PreprocessorState::new();
    let mut input = queue(FileId { id: 5 }, "#include <gone.p4>");
    assert!(pp.preprocess(&mut input, &sources).unwrap().is_empty());
    assert_eq!(pp.errors()[0].1, "Could not find gone.p4".to_string());
}

#[test]
fn preprocess_faults_on_pragma_and_division_by_zero() {
    let mut pp = PreprocessorState::new();
    let mut input = queue(FileId { id: 0 }, "#pragma once\n");
    assert!(pp.preprocess(&mut input, &vec![]).is_none());

    let mut pp = PreprocessorState::new();
    let mut input = queue(FileId { id: 0 }, "#if 1/0\nx\n#endif\n");
    assert!(pp.preprocess(&mut input, &vec![]).is_none());
}

#[test]
fn preprocess_dangling_endif_and_elif() {
    check_pp("#endif\n", vec![], vec!["Dangling #endif".to_string()]);
    check_pp("#elif 1\n", vec![], vec!["An #elif cannot follow an #else".to_string()]);
    check_pp(
        "#define x 1\n#undef x\n#if defined(x)\na\n#else\nb\n#endif\n",
        vec![ident("b"), Token::Whitespace],
        vec![],
    );
    check_pp("#warning hi\n", vec![], vec!["Unrecognised directive: warning".to_string()]);
}

#[test]
fn definitions_hold_each_name_once() {
	let mut defs = Definitions::new();
	defs.insert("A".to_string(), "1".to_string());
	defs.insert("B".to_string(), "2".to_string());
	defs.insert("A".to_string(), "3".to_string());
	assert_eq!(defs.len(), 2);
	assert_eq!(defs.find(&"A".to_string()), Some(0));
	assert_eq!(defs.get(&"A".to_string()), Some(&"3".to_string()));
	defs.remove(&"A".to_string());
	assert_eq!(defs.len(), 1);
	assert!(!defs.contains_key(&"A".to_string()));
	assert_eq!(defs.find(&"B".to_string()), Some(0));
}
