use p4_analyzer::workspace::FileTable;
use p4_analyzer::analyzer::Analyzer;
use p4_analyzer::base_abstractions::{FileId, Span};
use p4_analyzer::capabilities::{
	create_initialize_result, initialize_response, relative_p4_sourcefiles_globpattern, watched_files_registration,
	TextDocumentSyncKind, WorkspaceFoldersCapability,
};
use p4_analyzer::extensions::FilterResult;
use p4_analyzer::features::{
	completion_labels, did_change, hover_text, lsp_severity, process_diagnostics, DiagnosticSeverity, DidChangeError,
};
use p4_analyzer::futures_extensions::{FutureCompletionSource, FutureCompletionSourceError};
use p4_analyzer::lexer::Token;
use p4_analyzer::text_document::{Position, Range, TextDocumentContentChangeEvent};
use p4_analyzer::trace::{log_trace, TraceMessage, TraceValue, TraceValueAccessor};
use p4_analyzer::workspace::{
	background_step, is_descendant_path, is_descendant_relative, BackgroundAction, BackgroundEvent, FileState,
	IndexError, WorkspaceFolder, WorkspaceManager,
};
use p4_analyzer::base_abstractions::Severity;
use p4_analyzer::workspace::{resolve_path, try_resolve_path};
use p4_analyzer::json_rpc::{IdRepr, RequestId};
use p4_analyzer::lsp_protocol::LspProtocolError;
use p4_analyzer::requests::{interpret_response, same_id, RequestTracker, ResponseOutcome};

#[test]
fn initialize_result_announces_capabilities() {
	let r = create_initialize_result(false);
	assert!(r.capabilities.workspace_folders.is_none());
	assert_eq!(r.capabilities.change, TextDocumentSyncKind::Incremental);
	assert_eq!(r.capabilities.change.code(), 2);
	assert!(r.capabilities.save_include_text);
	assert_eq!(r.capabilities.completion_trigger_characters, vec!["(", "<", "."]);
	assert_eq!(r.capabilities.signature_help_trigger_characters, vec!["(", ","]);
	assert!(r.capabilities.hover_provider && r.capabilities.references_provider);
	assert_eq!(r.server_info.name, "P4 Analyzer");
	assert_eq!(r.server_info.version, "0.0.0");

	let r = create_initialize_result(true);
	assert_eq!(
		r.capabilities.workspace_folders,
		Some(WorkspaceFoldersCapability { supported: true, change_notifications: true })
	);
}

#[test]
fn initialize_requires_watched_files_with_workspaces() {
	assert!(initialize_response(false, false).unwrap().capabilities.workspace_folders.is_none());
	assert!(initialize_response(true, true).unwrap().capabilities.workspace_folders.is_some());
	let err = initialize_response(true, false).unwrap_err();
	assert!(err.contains("workspace.didChangeWatchedFiles"));

	assert!(watched_files_registration(false).is_none());
	let reg = watched_files_registration(true).unwrap();
	assert_eq!(reg.id, "p4-analyzer-watched-files");
	assert_eq!(reg.method, "workspace/didChangeWatchedFiles");
	assert_eq!(reg.glob_pattern, relative_p4_sourcefiles_globpattern());
	assert_eq!(relative_p4_sourcefiles_globpattern(), "**/*.p4");
}

#[test]
fn hover_text_names_the_position() {
	assert_eq!(hover_text(3, 14), "Hovering over Ln *3*, Col *14*.");
	assert_eq!(hover_text(0, 0), "Hovering over Ln *0*, Col *0*.");
}

#[test]
fn completion_labels_are_unique_identifiers() {
	let at = |t: Token| (FileId { id: 0 }, t, Span { start: 0, end: 0 });
	let tokens = vec![
		at(Token::Identifier("b".to_string())),
		at(Token::Comma),
		at(Token::Identifier("a".to_string())),
		at(Token::Identifier("b".to_string())),
		at(Token::KwParser),
		at(Token::Identifier("c".to_string())),
	];
	assert_eq!(completion_labels(&tokens), vec!["b".to_string(), "a".to_string(), "c".to_string()]);
	assert!(completion_labels(&vec![]).is_empty());
}

#[test]
fn diagnostics_are_reported_in_positions() {
	let mut analyzer = Analyzer::new();
	let foo = analyzer.file_id("foo.p4");
	let text = "a\nb $$ c".to_string();
	analyzer.update(foo, text.clone());
	let ds = process_diagnostics(&analyzer, foo, &text);
	assert_eq!(ds.len(), 1);
	assert_eq!(ds[0].range, Range::new(Position::new(1, 2), Position::new(1, 4)));
	assert_eq!(ds[0].severity, DiagnosticSeverity::Error);
	assert_eq!(ds[0].severity.code(), 1);
	assert_eq!(ds[0].message, "unexpected token");
	assert_eq!(lsp_severity(Severity::Info), DiagnosticSeverity::Information);
	assert_eq!(lsp_severity(Severity::Hint).code(), 4);
}

fn change(range: Option<((u32, u32), (u32, u32))>, text: &str) -> TextDocumentContentChangeEvent {
	TextDocumentContentChangeEvent {
		range: range.map(|((l1, c1), (l2, c2))| Range::new(Position::new(l1, c1), Position::new(l2, c2))),
		range_length: None,
		text: text.to_string(),
	}
}

#[test]
fn did_change_applies_changes_in_order() {
	let mut analyzer = Analyzer::new();
	assert_eq!(did_change(&mut analyzer, "foo.p4", &vec![change(None, "x")]), Err(DidChangeError::UnknownFile));
	assert_eq!(DidChangeError::UnknownFile.to_string(), "received a didChange notification for an unknown file");

	let foo = analyzer.file_id("foo.p4");
	analyzer.update(foo, "012\n456\n".to_string());
	let changes = vec![change(Some(((1, 0), (1, 2))), "x"), change(Some(((0, 3), (0, 3))), "!")];
	assert_eq!(did_change(&mut analyzer, "foo.p4", &changes), Ok(foo));
	assert_eq!(analyzer.input(foo).unwrap(), "012!\nx6\n");

	let backwards = vec![change(None, "ab\ncd"), change(Some(((1, 1), (0, 0))), "")];
	assert_eq!(did_change(&mut analyzer, "foo.p4", &backwards), Err(DidChangeError::BadChange(1)));
	assert_eq!(analyzer.input(foo).unwrap(), "012!\nx6\n");
}

#[test]
fn completion_sources_complete_once() {
	let mut source: FutureCompletionSource<u32, IndexError> = FutureCompletionSource::new();
	assert!(source.state().is_none());
	assert_eq!(source.set_value(7), Ok(()));
	assert_eq!(source.set_err(IndexError::NotFound), Err(FutureCompletionSourceError::Invalid));
	assert_eq!(source.set_value(8), Err(FutureCompletionSourceError::Invalid));
	assert_eq!(source.state(), &Some(Ok(7)));
	assert_eq!(FutureCompletionSourceError::Invalid.to_string(), "The underlying Future has already completed.");
	let ready: FutureCompletionSource<u32, IndexError> = FutureCompletionSource::new_with_value(3);
	assert!(ready.is_completed());
}

#[test]
fn file_state_follows_the_client() {
	let mut file = FileState::new();
	assert!(!file.is_open_in_ide);
	file.set_index_error(IndexError::NotFound);
	assert_eq!(file.parsed_unit.state(), &Some(Err(IndexError::NotFound)));
	file.open_or_update(FileId { id: 4 });
	assert!(file.is_open_in_ide);
	assert_eq!(file.parsed_unit.state(), &Some(Ok(FileId { id: 4 })));
	file.set_parsed_unit(FileId { id: 5 });
	assert_eq!(file.parsed_unit.state(), &Some(Ok(FileId { id: 5 })));
	file.close();
	assert!(!file.is_open_in_ide);
	assert_eq!(IndexError::NotFound.to_string(), "The file could not be found.");
	assert_eq!(IndexError::Unexpected.to_string(), "An unexpected error occurred during file indexing.");
}

#[test]
fn workspaces_hold_their_descendants() {
	assert!(is_descendant_path("file:///work/", "file:///work/src/a.p4"));
	assert!(!is_descendant_path("file:///work/", "file:///other/a.p4"));
	assert!(!is_descendant_path("file:///work/", "http://example.com/a.p4"));
	assert!(!is_descendant_path("not a url", "file:///work/a.p4"));
	assert!(is_descendant_relative(&Some("src/a.p4".to_string())));
	assert!(!is_descendant_relative(&Some("../a.p4".to_string())));
	assert!(!is_descendant_relative(&None));

	let root = WorkspaceManager::new(None);
	assert!(!root.has_workspaces());
	assert_eq!(root.workspaces()[0].name, "<*>");
	assert_eq!(root.find_workspace("file:///anywhere/a.p4"), Some(0));

	let folders = vec![
		WorkspaceFolder { name: "a".to_string(), uri: "file:///a/".to_string() },
		WorkspaceFolder { name: "b".to_string(), uri: "file:///b/".to_string() },
	];
	let manager = WorkspaceManager::new(Some(folders));
	assert!(manager.has_workspaces());
	assert_eq!(manager.find_workspace("file:///b/x.p4"), Some(1));
	assert_eq!(manager.find_workspace("file:///c/x.p4"), None);
}

#[test]
fn background_analysis_defers_to_the_client() {
	assert!(matches!(background_step(BackgroundEvent::Started { open_in_ide: true }), BackgroundAction::Stop));
	assert!(matches!(background_step(BackgroundEvent::Started { open_in_ide: false }), BackgroundAction::FetchContents));
	assert!(matches!(
		background_step(BackgroundEvent::Fetched { contents: None, open_in_ide: false }),
		BackgroundAction::MarkNotFound
	));
	assert!(matches!(
		background_step(BackgroundEvent::Fetched { contents: Some("x".to_string()), open_in_ide: true }),
		BackgroundAction::Stop
	));
	match background_step(BackgroundEvent::Fetched { contents: Some("x".to_string()), open_in_ide: false }) {
		BackgroundAction::Analyze(text) => assert_eq!(text, "x"),
		_ => panic!("expected an analysis"),
	}
}

#[test]
fn trace_messages_follow_the_trace_level() {
	let mut event = TraceMessage::new();
	event.record("message", "\"started\"");
	event.record("file_uri", "\"a.p4\"");
	assert_eq!(event.message, "\"started\"");
	assert_eq!(event.formatted_fields, "file_uri=\"a.p4\",");
	assert_eq!(event.to_string(), "\"started\" [file_uri=\"a.p4\",]");
	assert_eq!(TraceMessage::new().to_string(), "");

	assert!(log_trace(TraceValue::Off, &event).is_none());
	let plain = log_trace(TraceValue::Messages, &event).unwrap();
	assert_eq!(plain.message, "\"started\"");
	assert!(plain.verbose.is_none());
	let verbose = log_trace(TraceValue::Verbose, &event).unwrap();
	assert_eq!(verbose.verbose, Some("file_uri=\"a.p4\",".to_string()));

	let mut level = TraceValueAccessor::new();
	assert_eq!(level.get(), TraceValue::Off);
	assert!(log_trace(level.get(), &event).is_none());
	level.set(TraceValue::Verbose);
	assert_eq!(level.get(), TraceValue::Verbose);
	assert!(log_trace(level.get(), &event).unwrap().verbose.is_some());
}

#[test]
fn filter_turns_rejected_values_into_errors() {
	let ok: Result<u32, &str> = Ok(4);
	assert_eq!(ok.filter("odd", |v| v % 2 == 0), Ok(4));
	assert_eq!(Ok::<u32, &str>(3).filter("odd", |v| v % 2 == 0), Err("odd"));
	assert_eq!(Err::<u32, &str>("first").filter("odd", |v| v % 2 == 0), Err("first"));
	assert_eq!(Ok::<u32, String>(3).filter_else(|| "odd".to_string(), |v| v % 2 == 0), Err("odd".to_string()));
	assert_eq!(Ok::<u32, String>(2).filter_else(|| "odd".to_string(), |v| v % 2 == 0), Ok(2));
}

#[test]
fn paths_resolve_against_a_base_url() {
	assert_eq!(resolve_path("file:///work/a.p4", "b.p4"), Ok("file:///work/b.p4".to_string()));
	assert_eq!(resolve_path("file:///work/a.p4", "../lib/c.p4"), Ok("file:///lib/c.p4".to_string()));
	assert_eq!(resolve_path("not a url", "http://example.com/c.p4"), Ok("http://example.com/c.p4".to_string()));
	assert_eq!(
		resolve_path("file:///work/a.p4", "http://[::1"),
		Err("Could not find path 'http://[::1' (relative to 'file:///work/a.p4'). invalid IPv6 address".to_string())
	);
	assert_eq!(try_resolve_path("not a url", "b.p4"), None);
	assert_eq!(try_resolve_path("file:///w/", "b.p4"), Some(Ok("file:///w/b.p4".to_string())));
}

#[test]
fn requests_await_their_responses() {

	let mut tracker = RequestTracker::new();
	let first = tracker.begin();
	let second = tracker.begin();
	assert_eq!(first, RequestId(IdRepr::I32(0)));
	assert_eq!(second, RequestId(IdRepr::I32(1)));
	assert!(tracker.take(&second));
	assert!(!tracker.take(&second));
	assert!(!tracker.take(&RequestId::from("0".to_string())));
	assert!(tracker.take(&first));

	assert!(same_id(&RequestId::from("a".to_string()), &RequestId::from("a".to_string())));
	assert!(!same_id(&RequestId::from(1), &RequestId::from("1".to_string())));

	assert!(matches!(interpret_response(true, true), Err(LspProtocolError::UnexpectedResponse)));
	assert_eq!(interpret_response(false, true).unwrap(), ResponseOutcome::Value);
	assert_eq!(interpret_response(false, false).unwrap(), ResponseOutcome::Default);
}

#[test]
fn future_completion_source_returns_err_when_already_complete() {
	let mut fcs = FutureCompletionSource::<usize, ()>::new_with_value(100);
	assert_eq!(fcs.set_value(200), Err(FutureCompletionSourceError::Invalid));

	let mut fcs = FutureCompletionSource::<(), usize>::new_with_value(());
	assert_eq!(fcs.set_err(200), Err(FutureCompletionSourceError::Invalid));
}

#[test]
fn accepts_value_when_not_complete() {
	let mut fcs = FutureCompletionSource::<usize, ()>::new();
	assert_eq!(fcs.set_value(100), Ok(()));
}

#[test]
fn accepts_err_when_not_complete() {
	let mut fcs = FutureCompletionSource::<(), usize>::new();
	assert_eq!(fcs.set_err(100), Ok(()));
}

#[test]
fn file_table_creates_each_file_once() {
	let mut files = FileTable::new();
	assert_eq!(files.get_file("file:///a.p4"), (0, true));
	assert_eq!(files.get_file("file:///b.p4"), (1, true));
	assert_eq!(files.get_file("file:///a.p4"), (0, false));
	assert_eq!(files.len(), 2);
	assert_eq!(files.find("file:///b.p4"), Some(1));
	assert_eq!(files.find("file:///c.p4"), None);
	assert!(!files.file(0).is_open_in_ide);
	files.file_mut(0).open_or_update(FileId { id: 3 });
	assert!(files.file(0).is_open_in_ide);
	assert!(!files.file(1).is_open_in_ide);
	assert_eq!(files.file(0).parsed_unit.state(), &Some(Ok(FileId { id: 3 })));
}
