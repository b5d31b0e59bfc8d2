use p4_analyzer::parser::{Cst, ExistingMatch, GrammarError, OneOf, Parser, ParserError, Rule as GenericRule};

type Rule<N, T> = GenericRule<N, T, OneOf<T>>;
use std::rc::Rc;

fn chars(s: &str) -> Vec<char> {
	s.chars().collect()
}

fn term(s: &str) -> Rule<&'static str, char> {
	Rule::Terminal(Rc::new(chars(s)))
}

fn leaf(s: &str) -> Rc<ExistingMatch<&'static str, char>> {
	Rc::new(ExistingMatch { cst: Cst::Terminal(Rc::new(chars(s))), match_length: s.chars().count() })
}

fn parse(
	rules: Vec<(&'static str, Rule<&'static str, char>)>,
	input: &str,
) -> Result<Rc<ExistingMatch<&'static str, char>>, Rc<ParserError<&'static str, char>>> {
	Parser::from_rules("start", rules).unwrap().parser(chars(input)).parse()
}

#[test]
fn terminal() {
	let result = parse(vec![("start", term("foo"))], "foo");
	assert_eq!(result, Ok(leaf("foo")));
}

#[test]
fn choice_of_terminals() {
	let rules = || {
		vec![
			("start", Rule::Choice(vec!["a", "b", "c"])),
			("a", Rule::Choice(vec!["x", "y"])),
			("b", term("1")),
			("c", Rule::Choice(vec!["b", "y"])),
			("x", term("2")),
			("y", term("3")),
		]
	};

	assert_eq!(
		parse(rules(), "1"),
		Ok(Rc::new(ExistingMatch { cst: Cst::Choice("b", leaf("1")), match_length: 1 }))
	);

	assert_eq!(
		parse(rules(), "2"),
		Ok(Rc::new(ExistingMatch {
			cst: Cst::Choice("a", Rc::new(ExistingMatch { cst: Cst::Choice("x", leaf("2")), match_length: 1 })),
			match_length: 1,
		}))
	);

	assert_eq!(
		parse(rules(), "3"),
		Ok(Rc::new(ExistingMatch {
			cst: Cst::Choice("a", Rc::new(ExistingMatch { cst: Cst::Choice("y", leaf("3")), match_length: 1 })),
			match_length: 1,
		}))
	);
}

#[test]
fn full_grammar() {
	// start => a, b; b => a | y; a => "1"; y => "foo";
	let rules = vec![
		("start", Rule::Sequence(vec!["a", "b"])),
		("b", Rule::Choice(vec!["a", "y"])),
		("a", term("1")),
		("y", term("foo")),
	];

	assert_eq!(
		parse(rules, "1foo"),
		Ok(Rc::new(ExistingMatch {
			cst: Cst::Sequence(vec![
				leaf("1"),
				Rc::new(ExistingMatch { cst: Cst::Choice("y", leaf("foo")), match_length: 3 }),
			]),
			match_length: 4,
		}))
	);
}

#[test]
fn parser_errors_name_what_failed() {
	let rules = || {
		vec![
			("start", Rule::Sequence(vec!["a", "b"])),
			("b", Rule::Choice(vec!["a", "y"])),
			("a", term("1")),
			("y", term("foo")),
		]
	};

	assert_eq!(parse(rules(), "1fo"), {
		let failures = vec![
			("a", Rc::new(ParserError::ExpectedToken('1'))),
			("y", Rc::new(ParserError::ExpectedToken('o'))),
		];
		Err(Rc::new(ParserError::Expected("b", Rc::new(ParserError::ExpectedOneOf(failures)))))
	});
	assert_eq!(parse(rules(), "1foo1"), Err(Rc::new(ParserError::ExpectedEof)));
	assert_eq!(
		parse(rules(), ""),
		Err(Rc::new(ParserError::Expected("a", Rc::new(ParserError::ExpectedToken('1')))))
	);
}

#[test]
fn parser_repetition_and_not() {
	// start => digits, end; digits => digit rep; digit => one | two; end => !digit
	let rules = || {
		vec![
			("start", Rule::Sequence(vec!["digits", "end"])),
			("digits", Rule::Repetition("digit")),
			("digit", Rule::Choice(vec!["one", "two"])),
			("one", term("1")),
			("two", term("2")),
			("end", Rule::Not("digit")),
		]
	};
	let digit = |name: &'static str, s: &str| {
		Rc::new(ExistingMatch { cst: Cst::Choice(name, leaf(s)), match_length: 1 })
	};

	assert_eq!(
		parse(rules(), "121"),
		Ok(Rc::new(ExistingMatch {
			cst: Cst::Sequence(vec![
				Rc::new(ExistingMatch {
					cst: Cst::Repetition(vec![digit("one", "1"), digit("two", "2"), digit("one", "1")]),
					match_length: 3,
				}),
				Rc::new(ExistingMatch { cst: Cst::Not("digit"), match_length: 0 }),
			]),
			match_length: 3,
		}))
	);
	assert_eq!(
		parse(rules(), ""),
		Ok(Rc::new(ExistingMatch {
			cst: Cst::Sequence(vec![
				Rc::new(ExistingMatch { cst: Cst::Repetition(vec![]), match_length: 0 }),
				Rc::new(ExistingMatch { cst: Cst::Not("digit"), match_length: 0 }),
			]),
			match_length: 0,
		}))
	);
	assert_eq!(parse(rules(), "12x"), Err(Rc::new(ParserError::ExpectedEof)));
}

#[test]
fn parser_rejects_undefined_names() {
	let missing = Parser::<&str, char, OneOf<char>>::from_rules("start", vec![("a", term("1"))]);
	assert!(matches!(missing, Err(GrammarError::MissingStart("start"))));

	let dangling = Parser::<&str, char, OneOf<char>>::from_rules("start", vec![("start", Rule::Sequence(vec!["a", "b"])), ("a", term("1"))]);
	assert!(matches!(dangling, Err(GrammarError::UndefinedReference("start", "b"))));

	// the last definition of a name counts
	let result = parse(vec![("start", term("1")), ("start", term("2"))], "2");
	assert_eq!(result, Ok(leaf("2")));
}

fn arithmetic() -> Vec<(&'static str, Rule<&'static str, char>)> {
	let mut rules = vec![
		("start", Rule::Choice(vec!["addition", "subtraction"])),
		("addition", Rule::Sequence(vec!["num", "plus", "num"])),
		("subtraction", Rule::Sequence(vec!["num", "minus", "num"])),
		("plus", term("+")),
		("minus", term("-")),
		("num", Rule::Sequence(vec!["digit", "many_digits"])),
		("many_digits", Rule::Repetition("digit")),
		("digit", Rule::Choice(vec!["n0", "n1", "n2", "n3", "n4", "n5", "n6", "n7", "n8", "n9"])),
	];
	for (name, digit) in
		[("n0", "0"), ("n1", "1"), ("n2", "2"), ("n3", "3"), ("n4", "4"), ("n5", "5"), ("n6", "6"), ("n7", "7"), ("n8", "8"), ("n9", "9")]
	{
		rules.push((name, term(digit)));
	}
	rules
}

fn fresh(input: &str) -> Result<Rc<ExistingMatch<&'static str, char>>, Rc<ParserError<&'static str, char>>> {
	Parser::from_rules("start", arithmetic()).unwrap().parser(chars(input)).parse()
}

#[test]
fn parser_edits_agree_with_fresh_parses() {
	let mut parser = Parser::from_rules("start", arithmetic()).unwrap().parser(chars("896-7"));
	assert_eq!(parser.parse(), fresh("896-7"));
	assert!(matches!(&parser.parse().unwrap().cst, Cst::Choice("subtraction", _)));

	let edits: Vec<(std::ops::Range<usize>, &str, &str)> = vec![
		(1..2, "0", "806-7"),
		(0..4, "42+", "42+7"),
		(3..4, "", "42+"),
		(3..3, "123", "42+123"),
		(0..0, "9", "942+123"),
		(3..4, "_", "942_123"),
		(3..4, "0-0", "9420-0123"),
	];
	for (range, text, expected_text) in edits {
		parser.apply_edit(range, &chars(text));
		assert_eq!(parser.parse(), fresh(expected_text), "after editing to {expected_text}");
	}

	assert!(matches!(&parser.parse().unwrap().cst, Cst::Choice("subtraction", _)));
	assert!(matches!(fresh("42+"), Err(e) if matches!(&*e, ParserError::ExpectedOneOf(_))));
	assert_eq!(parser.parse().unwrap().match_length, 9);
}

use p4_analyzer::ast::{preorder, AstNode, Direction, DirectionTag, GreenNode, SyntaxNode};
use p4_analyzer::parser::TriviaClass;

fn parameter_grammar() -> Vec<(&'static str, Rule<&'static str, char>)> {
	// start => direction, ws, name; direction => dir_in | dir_out | dir_inout
	vec![
		("start", Rule::Sequence(vec!["direction", "ws", "name"])),
		("direction", Rule::Choice(vec!["dir_inout", "dir_in", "dir_out"])),
		("dir_in", term("in")),
		("dir_out", term("out")),
		("dir_inout", term("inout")),
		("ws", Rule::Repetition("space")),
		("space", term(" ")),
		("name", Rule::Repetition("letter")),
		("letter", Rule::Choice(vec!["x", "y"])),
		("x", term("x")),
		("y", term("y")),
	]
}

fn syntax_root(
	trivia: Vec<(&'static str, TriviaClass)>,
	input: &str,
) -> SyntaxNode<&'static str, char, OneOf<char>> {
	let grammar = Parser::from_rules("start", parameter_grammar()).unwrap().with_trivia(trivia);
	let shared = Rc::new(grammar.copy());
	let tree = grammar.parser(chars(input)).parse().unwrap();
	SyntaxNode::new_root(shared, GreenNode(tree))
}

#[test]
fn syntax_children_know_their_rule_and_offset() {
	let root = syntax_root(vec![], "in  xy");
	assert_eq!(root.kind(), "start");
	assert_eq!(root.length(), 6);
	assert!(root.parent().is_none());

	let children = root.children();
	let kinds: Vec<&str> = children.iter().map(|c| c.kind()).collect();
	assert_eq!(kinds, vec!["direction", "ws", "name"]);
	let offsets: Vec<usize> = children.iter().map(|c| c.0.offset).collect();
	assert_eq!(offsets, vec![0, 2, 4]);
	let lengths: Vec<usize> = children.iter().map(|c| c.length()).collect();
	assert_eq!(lengths, vec![2, 2, 2]);
	assert_eq!(children[1].parent().unwrap().kind(), "start");

	let letters = children[2].children();
	assert_eq!(letters.iter().map(|c| (c.kind(), c.0.offset)).collect::<Vec<_>>(), vec![("letter", 4), ("letter", 5)]);
	assert_eq!(letters[1].children()[0].kind(), "y");
}

#[test]
fn syntax_preorder_skips_trivia() {
	let root = syntax_root(vec![], "out x");
	let all: Vec<(u32, &str, usize)> = preorder(0, root).iter().map(|(d, n)| (*d, n.kind(), n.0.offset)).collect();
	assert_eq!(
		all,
		vec![
			(0, "start", 0),
			(1, "direction", 0),
			(2, "dir_out", 0),
			(1, "ws", 3),
			(2, "space", 3),
			(1, "name", 4),
			(2, "letter", 4),
			(3, "x", 4),
		]
	);

	let root = syntax_root(vec![("ws", TriviaClass::SkipNodeAndChildren), ("letter", TriviaClass::SkipNodeOnly)], "out x");
	assert!(root.children()[1].is_trivia());
	assert_eq!(root.children()[1].trivia_class(), TriviaClass::SkipNodeAndChildren);
	let kept: Vec<(u32, &str)> = preorder(0, root).iter().map(|(d, n)| (*d, n.kind())).collect();
	assert_eq!(kept, vec![(0, "start"), (1, "direction"), (2, "dir_out"), (1, "name"), (2, "x")]);
}

#[test]
fn syntax_direction_casts() {
	let root = syntax_root(vec![], "inout y");
	let direction = root.children().into_iter().next().unwrap();
	assert!(<Direction<char, OneOf<char>> as AstNode<&str, char, OneOf<char>>>::can_cast(&direction));
	let cast = <Direction<char, OneOf<char>> as AstNode<&str, char, OneOf<char>>>::cast(direction).unwrap();
	assert_eq!(cast.variant, DirectionTag::InOut);
	assert_eq!(cast.variant.to_string(), "inout");
	assert_eq!(cast.span(), 0..5);
	assert_eq!(cast.text_span(&[1, 2, 3, 4, 5, 6, 7]), 0..5);

	let root = syntax_root(vec![], "in y");
	assert!(<Direction<char, OneOf<char>> as AstNode<&str, char, OneOf<char>>>::cast(root.share()).is_none());
	let name = root.children().into_iter().nth(2).unwrap();
	let as_direction = <Direction<char, OneOf<char>> as AstNode<&str, char, OneOf<char>>>::cast(name);
	assert!(as_direction.is_none());
}

#[test]
fn parser_terminal_predicates_match_one_token_of_a_class() {
	let digits = || OneOf(chars("0123456789"));
	let rules = || {
		vec![
			("start", Rule::Sequence(vec!["digit", "more"])),
			("more", Rule::Repetition("digit")),
			("digit", Rule::TerminalPredicate(digits(), "a digit")),
		]
	};
	let one = |c: char| Rc::new(ExistingMatch { cst: Cst::Terminal(Rc::new(vec![c])), match_length: 1 });
	assert_eq!(
		parse(rules(), "42"),
		Ok(Rc::new(ExistingMatch {
			cst: Cst::Sequence(vec![
				one('4'),
				Rc::new(ExistingMatch { cst: Cst::Repetition(vec![one('2')]), match_length: 1 }),
			]),
			match_length: 2,
		}))
	);
	assert_eq!(
		parse(rules(), "x"),
		Err(Rc::new(ParserError::Expected("digit", Rc::new(ParserError::ExpectedPatternMatch("a digit")))))
	);
	assert_eq!(
		parse(rules(), ""),
		Err(Rc::new(ParserError::Expected("digit", Rc::new(ParserError::ExpectedPatternMatch("a digit")))))
	);
}

use p4_analyzer::ast::{Ident, TokenClass};
use p4_analyzer::base_abstractions::FileId;
use p4_analyzer::lexer::{try_lex, Token};

type TokenRule = GenericRule<&'static str, Token, TokenClass>;

fn parameter_token_grammar() -> Vec<(&'static str, TokenRule)> {
	let named = |s: &str| GenericRule::TerminalPredicate(TokenClass::IdentifierNamed(s.to_string()), "a keyword");
	vec![
		("start", GenericRule::Sequence(vec!["ws", "maybe_direction", "ws", "typ", "ws", "ident", "ws"])),
		("maybe_direction", GenericRule::Choice(vec!["direction", "nothing"])),
		("direction", GenericRule::Choice(vec!["dir_in", "dir_out", "dir_inout"])),
		("dir_in", named("in")),
		("dir_out", named("out")),
		("dir_inout", named("inout")),
		("typ", GenericRule::Sequence(vec!["ident"])),
		("ident", GenericRule::TerminalPredicate(TokenClass::Identifier, "an identifier")),
		("ws", GenericRule::Repetition("whitespace")),
		("whitespace", GenericRule::Terminal(Rc::new(vec![Token::Whitespace]))),
		("nothing", GenericRule::Nothing),
	]
}

fn lexed_root(source: &str) -> SyntaxNode<&'static str, Token, TokenClass> {
	let tokens: Vec<Token> = try_lex(FileId { id: 0 }, source).unwrap().lexemes.into_iter().map(|(t, _)| t).collect();
	let grammar = Parser::from_rules("start", parameter_token_grammar())
		.unwrap()
		.with_trivia(vec![("ws", TriviaClass::SkipNodeAndChildren), ("maybe_direction", TriviaClass::SkipNodeOnly)]);
	let shared = Rc::new(grammar.copy());
	let tree = grammar.parser(tokens).parse().unwrap();
	SyntaxNode::new_root(shared, GreenNode(tree))
}

#[test]
fn syntax_identifiers_of_lexed_parameters() {
	let root = lexed_root(" inout bit  flag ");
	let mut names = vec![];
	let mut directions = vec![];
	for (_, node) in preorder(0, root) {
		if let Some(ident) = <Ident<TokenClass> as AstNode<&str, Token, TokenClass>>::cast(node.share()) {
			names.push((ident.as_str().to_string(), ident.offset()));
		}
		if let Some(d) = <Direction<Token, TokenClass> as AstNode<&str, Token, TokenClass>>::cast(node) {
			directions.push(d.variant);
		}
	}
	assert_eq!(names, vec![("bit".to_string(), 3), ("flag".to_string(), 5)]);
	assert_eq!(directions, vec![DirectionTag::InOut]);

	let root = lexed_root("bit flag");
	let kinds: Vec<&str> = preorder(0, root.share()).iter().map(|(_, n)| n.kind()).collect();
	assert_eq!(kinds, vec!["start", "nothing", "typ", "ident", "ident"]);
	assert!(<Ident<TokenClass> as AstNode<&str, Token, TokenClass>>::cast(root).is_none());
}

#[test]
fn token_classes_pick_identifiers_and_keywords() {
	let parse = |s: &str| {
		let rules = vec![
			("start", GenericRule::Sequence(vec!["keyword", "ws", "number"])),
			("keyword", GenericRule::TerminalPredicate(TokenClass::IdentifierNamed("out".to_string()), "out")),
			("ws", GenericRule::Repetition("whitespace")),
			("whitespace", GenericRule::Terminal(Rc::new(vec![Token::Whitespace]))),
			("number", GenericRule::TerminalPredicate(TokenClass::Integer, "a number")),
		];
		let tokens: Vec<Token> = try_lex(FileId { id: 0 }, s).unwrap().lexemes.into_iter().map(|(t, _)| t).collect();
		Parser::from_rules("start", rules).unwrap().parser(tokens).parse()
	};
	assert_eq!(parse("out 8w1").unwrap().match_length, 3);
	assert_eq!(
		parse("in 8w1"),
		Err(Rc::new(ParserError::Expected("keyword", Rc::new(ParserError::ExpectedPatternMatch("out")))))
	);
	assert_eq!(
		parse("out x"),
		Err(Rc::new(ParserError::Expected("number", Rc::new(ParserError::ExpectedPatternMatch("a number")))))
	);
}
