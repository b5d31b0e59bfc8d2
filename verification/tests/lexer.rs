use p4_analyzer::lexer::{lex_str, Literal, Token};
use p4_analyzer::preprocessor::{
    parse_pp_expression, PreprocessorBinOp, PreprocessorDirective, PreprocessorExpression,
    PreprocessorQuotationStyle,
};

fn lex(s: &str) -> Vec<Token> {
    lex_str(s).unwrap()
}

fn ident(s: &str) -> Token {
    Token::Identifier(s.to_string())
}

fn lit(base: u8, signed: bool, width: Option<u32>, value: i64) -> Token {
    Token::Integer(Literal { base, signed, width, value })
}

#[test]
fn lexer_it_works() {
    assert_eq!(lex("hello"), vec![ident("hello")]);
}

#[test]
fn tests_it_works() {
    assert_eq!(lex("hello"), vec![ident("hello")]);
}

fn int_literals_input() -> &'static str {
    r##"
			123
			10s5
			2w11
			0xff
		"##
}

fn int_literals_expected() -> Vec<Token> {
    vec![
        Token::Whitespace,
        lit(10, false, None, 123),
        Token::Whitespace,
        lit(10, true, Some(10), 5),
        Token::Whitespace,
        lit(10, false, Some(2), 11),
        Token::Whitespace,
        lit(16, false, None, 255),
        Token::Whitespace,
    ]
}

#[test]
fn lexer_int_literals() {
    assert_eq!(lex(int_literals_input()), int_literals_expected());
}

#[test]
fn tests_int_literals() {
    assert_eq!(lex(int_literals_input()), int_literals_expected());
}

fn real_p4_input() -> &'static str {
    r##"
		// Include P4 core library
		# include <core.p4>

		// Include very simple switch architecture declarations
		# include "very_simple_switch_model.p4"
		# foo something

		// This program processes packets comprising an Ethernet and an IPv4
		// header, and it forwards packets using the destination IP address

		typedef bit<48>  EthernetAddress;
		typedef bit<32>  IPv4Address;

		// Standard Ethernet header
		header Ethernet_h {
			EthernetAddress dstAddr;
			EthernetAddress srcAddr;
			bit<16>         etherType;
		}
		"##
}

fn real_p4_expected() -> Vec<Token> {
    vec![
        Token::Whitespace,
        Token::Comment,
        Token::Whitespace,
        Token::PreprocessorDirective(PreprocessorDirective::Include(PreprocessorQuotationStyle::AngleBrackets, "core.p4".to_string())),
        Token::Whitespace,
        Token::Comment,
        Token::Whitespace,
        Token::PreprocessorDirective(PreprocessorDirective::Include(
            PreprocessorQuotationStyle::DoubleQuotes,
            "very_simple_switch_model.p4".to_string(),
        )),
        Token::Whitespace,
        Token::PreprocessorDirective(PreprocessorDirective::Other("foo".to_string(), " something".to_string())),
        Token::Whitespace,
        Token::Comment,
        Token::Whitespace,
        Token::Comment,
        Token::Whitespace,
        Token::KwTypedef,
        Token::Whitespace,
        ident("bit"),
        Token::OpenChevron,
        lit(10, false, None, 48),
        Token::CloseChevron,
        Token::Whitespace,
        ident("EthernetAddress"),
        Token::Semicolon,
        Token::Whitespace,
        Token::KwTypedef,
        Token::Whitespace,
        ident("bit"),
        Token::OpenChevron,
        lit(10, false, None, 32),
        Token::CloseChevron,
        Token::Whitespace,
        ident("IPv4Address"),
        Token::Semicolon,
        Token::Whitespace,
        Token::Comment,
        Token::Whitespace,
        Token::KwHeader,
        Token::Whitespace,
        ident("Ethernet_h"),
        Token::Whitespace,
        Token::OpenBrace,
        Token::Whitespace,
        ident("EthernetAddress"),
        Token::Whitespace,
        ident("dstAddr"),
        Token::Semicolon,
        Token::Whitespace,
        ident("EthernetAddress"),
        Token::Whitespace,
        ident("srcAddr"),
        Token::Semicolon,
        Token::Whitespace,
        ident("bit"),
        Token::OpenChevron,
        lit(10, false, None, 16),
        Token::CloseChevron,
        Token::Whitespace,
        ident("etherType"),
        Token::Semicolon,
        Token::Whitespace,
        Token::CloseBrace,
        Token::Whitespace,
    ]
}

#[test]
fn lexer_real_p4() {
    assert_eq!(lex(real_p4_input()), real_p4_expected());
}

#[test]
fn tests_real_p4() {
    assert_eq!(lex(real_p4_input()), real_p4_expected());
}

#[test]
fn long_comment() {

    assert_eq!(
        lex(r#"
			identifier
			/* poof */
		"#),
        vec![Token::Whitespace, ident("identifier"), Token::Whitespace, Token::Comment, Token::Whitespace,]
    );

    assert_eq!(
        lex(r#"
			/* if you're happy and you know it sign your commits with GPG */
			/*//* incomplete long *comment*
		"#),
        vec![Token::Whitespace, Token::Comment, Token::Whitespace, Token::Error,]
    );
}

#[test]
fn unknown_directive() {
    assert_eq!(
        lex(r#"
	#defineoops 1
	"#),
        vec![
            Token::Whitespace,
            Token::PreprocessorDirective(PreprocessorDirective::Other("defineoops".into(), " 1".into())),
            Token::Whitespace,
        ]
    );
}

#[test]
fn preprocessor_parser() {

    assert_eq!(
        parse_pp_expression("2 == 3".to_string()),
        Some(PreprocessorExpression::BinOp(
            PreprocessorBinOp::Equals,
            Box::new(PreprocessorExpression::IntLiteral(2)),
            Box::new(PreprocessorExpression::IntLiteral(3))
        ))
    );
}

#[test]
fn directive_names_are_unicode_words() {
    assert_eq!(
        lex("#é x\n"),
        vec![Token::PreprocessorDirective(PreprocessorDirective::Other("é".into(), " x".into()))]
    );
    assert_eq!(
        lex("# abcé2_\n"),
        vec![Token::PreprocessorDirective(PreprocessorDirective::Other("abcé2_".into(), "".into()))]
    );
    assert_eq!(lex("#+\n"), vec![Token::Error, Token::Plus, Token::Whitespace]);
}
