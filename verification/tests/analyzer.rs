use p4_analyzer::analyzer::{preprocess, Analyzer};
use p4_analyzer::base_abstractions::Severity;
use p4_analyzer::lexer::Token;

#[test]
fn includes() {
    let mut analyzer = Analyzer::new();
    let foo = analyzer.file_id("foo.p4");
    let bar = analyzer.file_id("bar.p4");
    analyzer.update(foo, "#include <bar.p4>\nfoo 321\n".to_string());
    analyzer.update(bar, "bar".to_string());
    let tokens: Vec<(u32, Token)> =
        analyzer.preprocessed(foo).unwrap().into_iter().map(|(f, tk, _)| (f.id, tk)).collect();
    assert_eq!(tokens[0], (bar.id, Token::Identifier("bar".to_string())));
    assert_eq!(tokens[1], (foo.id, Token::Identifier("foo".to_string())));
    assert!(analyzer.diagnostics(foo).is_empty());
    assert_eq!(analyzer.files(), vec!["foo.p4".to_string(), "bar.p4".to_string()]);
}

#[test]
fn file_ids_are_interned() {
    let mut analyzer = Analyzer::new();
    let a = analyzer.file_id("a.p4");
    let b = analyzer.file_id("b.p4");
    assert_ne!(a, b);
    assert_eq!(analyzer.file_id("a.p4"), a);
    assert_eq!(analyzer.path(b), "b.p4".to_string());
    assert!(analyzer.input(a).is_none());
    assert!(analyzer.files().is_empty());
}

#[test]
fn missing_include_is_reported() {
    let mut analyzer = Analyzer::new();
    let foo = analyzer.file_id("foo.p4");
    analyzer.update(foo, "#include \"nope.p4\"\nx".to_string());
    let diagnostics = analyzer.diagnostics(foo);
    assert_eq!(diagnostics.len(), 1);
    assert_eq!(diagnostics[0].message, "Could not find nope.p4".to_string());
    assert_eq!(diagnostics[0].severity, Severity::Error);
    let (tokens, errors) = preprocess(&analyzer, foo).unwrap();
    assert_eq!(tokens.len(), 1);
    assert_eq!(errors.len(), 1);
}

#[test]
fn delete_removes_a_file() {
    let mut analyzer = Analyzer::new();
    let foo = analyzer.file_id("foo.p4");
    analyzer.update(foo, "foo".to_string());
    assert_eq!(analyzer.input(foo).unwrap(), &"foo".to_string());
    assert_eq!(analyzer.delete("foo.p4"), Some(()));
    assert_eq!(analyzer.delete("foo.p4"), None);
    assert!(analyzer.lexed(foo).is_none());
    assert!(analyzer.preprocessed(foo).is_none());
}

#[test]
fn lexer_errors_become_diagnostics() {
    let mut analyzer = Analyzer::new();
    let foo = analyzer.file_id("foo.p4");
    analyzer.update(foo, "a $$ b".to_string());
    let diagnostics = analyzer.diagnostics(foo);
    assert_eq!(diagnostics.len(), 1);
    assert_eq!(diagnostics[0].message, "unexpected token".to_string());
    assert_eq!((diagnostics[0].location.start, diagnostics[0].location.end), (2, 4));
}
