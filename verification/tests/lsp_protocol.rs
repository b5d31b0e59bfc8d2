use p4_analyzer::json_rpc::ErrorCode;
use p4_analyzer::lsp_protocol::{
    dispatch, Decision, LspProtocolError, LspProtocolMachine, LspServerState, MessageKind, Reply,
};

fn process(lsp: &mut LspProtocolMachine, kind: MessageKind, method: &str) -> Result<Reply, LspProtocolError> {
    let decision = lsp.get_dispatcher(kind, method);
    lsp.process_message(&decision, kind, true, true)
}

#[test]
fn test_lsp_states() {
    let mut lsp = LspProtocolMachine::new();
    assert_eq!(lsp.current_state(), LspServerState::ActiveUninitialized);
    assert_eq!(lsp.is_active(), true);

    let mut output = process(&mut lsp, MessageKind::Request, "initialize");
    assert!(output.is_ok());
    assert_eq!(lsp.current_state(), LspServerState::Initializing);
    assert_eq!(lsp.is_active(), true);

    output = process(&mut lsp, MessageKind::Request, "textDocument/hover");
    assert!(output.is_ok());
    assert_eq!(lsp.current_state(), LspServerState::Initializing);
    assert_eq!(lsp.is_active(), true);

    output = process(&mut lsp, MessageKind::Notification, "initialized");
    assert!(output.is_ok());
    assert_eq!(lsp.current_state(), LspServerState::ActiveInitialized);
    assert_eq!(lsp.is_active(), true);

    output = process(&mut lsp, MessageKind::Notification, "textDocument/hover");
    assert!(output.is_err());
    assert_eq!(lsp.current_state(), LspServerState::ActiveInitialized);
    assert_eq!(lsp.is_active(), true);

    output = process(&mut lsp, MessageKind::Request, "shutdown");
    assert!(output.is_ok());
    assert_eq!(lsp.current_state(), LspServerState::ShuttingDown);
    assert_eq!(lsp.is_active(), true);

    output = process(&mut lsp, MessageKind::Notification, "exit");
    assert!(output.is_ok());
    assert_eq!(lsp.current_state(), LspServerState::Stopped);
    assert_eq!(lsp.is_active(), false);
}

#[test]
fn unhandled_requests_get_the_error_of_the_state() {
    let cases = [
        (LspServerState::ActiveUninitialized, ErrorCode::ServerNotInitialized, "An 'initialize' request is required."),
        (LspServerState::Initializing, ErrorCode::ServerNotInitialized, "The server is initializing."),
        (LspServerState::ActiveInitialized, ErrorCode::InternalError, "Internal server error."),
        (LspServerState::ShuttingDown, ErrorCode::InvalidRequest, "The server is currently shutting down."),
        (LspServerState::Stopped, ErrorCode::InvalidRequest, "The server has stopped."),
    ];
    for (state, code, message) in cases {
        match dispatch(state, MessageKind::Request, "no/such/method") {
            Decision::Respond(c, m) => {
                assert_eq!(c, code);
                assert_eq!(m, message.to_string());
            }
            other => panic!("unexpected decision {:?}", other),
        }
    }
    assert_eq!(ErrorCode::ServerNotInitialized.code(), -32002);
    assert_eq!(ErrorCode::InvalidRequest.code(), -32600);
    assert_eq!(ErrorCode::InvalidParams.code(), -32602);
    assert_eq!(ErrorCode::InternalError.code(), -32603);
}

#[test]
fn failing_handlers_and_bad_parameters() {
    let mut lsp = LspProtocolMachine::new();
    let decision = lsp.get_dispatcher(MessageKind::Request, "initialize");
    assert_eq!(lsp.process_message(&decision, MessageKind::Request, true, false).unwrap(), Reply::HandlerError(ErrorCode::InternalError));
    assert_eq!(lsp.current_state(), LspServerState::ActiveUninitialized);
    assert!(matches!(
        lsp.process_message(&decision, MessageKind::Request, false, true),
        Err(LspProtocolError::BadRequest(_))
    ));
    assert_eq!(lsp.current_state(), LspServerState::ActiveUninitialized);
    let exit = lsp.get_dispatcher(MessageKind::Notification, "exit");
    assert_eq!(lsp.process_message(&exit, MessageKind::Notification, true, true).unwrap(), Reply::Nothing);
    assert!(!lsp.is_active());
}
