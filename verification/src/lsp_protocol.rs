//! The lifecycle of a language server as the protocol prescribes it, and how
//! a message is dispatched in each state: to the handler registered for its
//! method, to an error response for an unexpected request, or refused.
//!
//! The handlers themselves (reading parameters, doing the work, answering)
//! run outside; this module decides what runs and which state follows.
use vstd::prelude::*;

use crate::json_rpc::{DeserializeError, ErrorCode};
use crate::text::same_text;

verus! {

/// The state of a language server.
#[derive(Clone, Copy, Debug, PartialEq, Eq, Structural, Hash)]
pub enum LspServerState {
    /// Active, but not yet initialized.
    ActiveUninitialized,
    /// It has answered an `initialize` request and waits for the client.
    Initializing,
    /// Active and initialized: it accepts document synchronization.
    ActiveInitialized,
    /// Shutting down.
    ShuttingDown,
    /// Stopped.
    Stopped,
}

/// A change of state that a handler asks for.
#[derive(Clone, Copy, Debug, PartialEq, Eq, Structural)]
pub enum LspTransitionTarget {
    /// Stay in the current state.
    Current,
    /// Go to the given state.
    Next(LspServerState),
}

/// An error in the protocol while a client message is processed.
#[derive(Clone, Copy, Debug)]
pub enum LspProtocolError {
    /// The received request was not expected.
    UnexpectedRequest,
    /// The received response was not expected.
    UnexpectedResponse,
    /// The message was malformed or invalid.
    BadRequest(DeserializeError),
    /// A message could not be sent or received.
    TransportError,
}

impl LspProtocolError {
    /// The message of the error.
    pub fn to_string(&self) -> (r: String)
        ensures
            r@ == match self {
                LspProtocolError::UnexpectedRequest => "The received request was not expected."@,
                LspProtocolError::UnexpectedResponse => "The received repsonse was not expected."@,
                LspProtocolError::BadRequest(_) => "The message was malformed or invalid."@,
                LspProtocolError::TransportError => "There was an error sending or receiving a message."@,
            },
    {
        match self {
            LspProtocolError::UnexpectedRequest => String::from_str("The received request was not expected."),
            LspProtocolError::UnexpectedResponse => String::from_str("The received repsonse was not expected."),
            LspProtocolError::BadRequest(_) => String::from_str("The message was malformed or invalid."),
            LspProtocolError::TransportError => String::from_str(
                "There was an error sending or receiving a message.",
            ),
        }
    }
}

/// The kinds of JSON-RPC message.
#[derive(Clone, Copy, Debug, PartialEq, Eq, Structural)]
pub enum MessageKind {
    Request,
    Response,
    Notification,
}

/// The handlers that the server registers.
#[derive(Clone, Copy, Debug, PartialEq, Eq, Structural)]
pub enum Handler {
    Initialize,
    Initialized,
    Shutdown,
    Exit,
    Hover,
    Completion,
    DidChangeTextDocument,
    DidCloseTextDocument,
    DidOpenTextDocument,
    DidSaveTextDocument,
    SetTrace,
    DidChangeWatchedFiles,
}

/// The method of the messages that a handler processes.
pub open spec fn handler_method(h: Handler) -> Seq<char> {
    match h {
        Handler::Initialize => "initialize"@,
        Handler::Initialized => "initialized"@,
        Handler::Shutdown => "shutdown"@,
        Handler::Exit => "exit"@,
        Handler::Hover => "textDocument/hover"@,
        Handler::Completion => "textDocument/completion"@,
        Handler::DidChangeTextDocument => "textDocument/didChange"@,
        Handler::DidCloseTextDocument => "textDocument/didClose"@,
        Handler::DidOpenTextDocument => "textDocument/didOpen"@,
        Handler::DidSaveTextDocument => "textDocument/didSave"@,
        Handler::SetTrace => "$/setTrace"@,
        Handler::DidChangeWatchedFiles => "workspace/didChangeWatchedFiles"@,
    }
}

/// Whether a handler answers requests (otherwise it takes notifications).
pub open spec fn handles_requests(h: Handler) -> bool {
    match h {
        Handler::Initialize | Handler::Shutdown | Handler::Hover | Handler::Completion => true,
        _ => false,
    }
}

/// The handlers registered in `state`, with the change of state each asks
/// for after it succeeds.
pub open spec fn registered(state: LspServerState) -> Seq<(Handler, LspTransitionTarget)> {
    match state {
        LspServerState::ActiveUninitialized => seq![
            (Handler::Initialize, LspTransitionTarget::Next(LspServerState::Initializing)),
            (Handler::Exit, LspTransitionTarget::Next(LspServerState::Stopped)),
        ],
        LspServerState::Initializing => seq![
            (Handler::Initialized, LspTransitionTarget::Next(LspServerState::ActiveInitialized)),
            (Handler::Exit, LspTransitionTarget::Next(LspServerState::Stopped)),
        ],
        LspServerState::ActiveInitialized => seq![
            (Handler::Shutdown, LspTransitionTarget::Next(LspServerState::ShuttingDown)),
            (Handler::Hover, LspTransitionTarget::Current),
            (Handler::Completion, LspTransitionTarget::Current),
            (Handler::DidChangeTextDocument, LspTransitionTarget::Current),
            (Handler::DidCloseTextDocument, LspTransitionTarget::Current),
            (Handler::DidOpenTextDocument, LspTransitionTarget::Current),
            (Handler::DidSaveTextDocument, LspTransitionTarget::Current),
            (Handler::SetTrace, LspTransitionTarget::Current),
            (Handler::DidChangeWatchedFiles, LspTransitionTarget::Current),
            (Handler::Exit, LspTransitionTarget::Next(LspServerState::Stopped)),
        ],
        LspServerState::ShuttingDown => seq![(Handler::Exit, LspTransitionTarget::Next(LspServerState::Stopped))],
        LspServerState::Stopped => seq![],
    }
}

/// The error response that `state` gives to a request without a handler.
pub open spec fn unhandled_request_error(state: LspServerState) -> (ErrorCode, Seq<char>) {
    match state {
        LspServerState::ActiveUninitialized => (ErrorCode::ServerNotInitialized, "An 'initialize' request is required."@),
        LspServerState::Initializing => (ErrorCode::ServerNotInitialized, "The server is initializing."@),
        LspServerState::ActiveInitialized => (ErrorCode::InternalError, "Internal server error."@),
        LspServerState::ShuttingDown => (ErrorCode::InvalidRequest, "The server is currently shutting down."@),
        LspServerState::Stopped => (ErrorCode::InvalidRequest, "The server has stopped."@),
    }
}

/// The index in `regs` of the handler for messages of `kind` with `method`.
pub open spec fn find_handler(
    regs: Seq<(Handler, LspTransitionTarget)>,
    kind: MessageKind,
    method: Seq<char>,
    i: int,
) -> Option<int>
    decreases regs.len() - i,
{
    if i < 0 || i >= regs.len() {
        None
    } else if handles_requests(regs[i].0) == (kind == MessageKind::Request) && kind != MessageKind::Response
        && handler_method(regs[i].0) == method {
        Some(i)
    } else {
        find_handler(regs, kind, method, i + 1)
    }
}

/// What a dispatcher does with a message.
#[derive(Clone, Debug)]
pub enum Decision {
    /// Run the handler; after it succeeds, follow the target.
    Handle(Handler, LspTransitionTarget),
    /// Answer the request with this error and stay.
    Respond(ErrorCode, String),
    /// Refuse the message.
    Fail(LspProtocolError),
}

/// The model of a [`Decision`].
pub enum SpecDecision {
    Handle(Handler, LspTransitionTarget),
    Respond(ErrorCode, Seq<char>),
    Fail(LspProtocolError),
}

impl View for Decision {
    type V = SpecDecision;

    open spec fn view(&self) -> SpecDecision {
        match self {
            Decision::Handle(h, t) => SpecDecision::Handle(*h, *t),
            Decision::Respond(c, m) => SpecDecision::Respond(*c, m@),
            Decision::Fail(e) => SpecDecision::Fail(*e),
        }
    }
}

/// What the dispatcher of `state` does with a message of `kind` and `method`.
pub open spec fn spec_dispatch(state: LspServerState, kind: MessageKind, method: Seq<char>) -> SpecDecision {
    match find_handler(registered(state), kind, method, 0) {
        Some(i) => SpecDecision::Handle(registered(state)[i].0, registered(state)[i].1),
        None => if kind == MessageKind::Request {
            SpecDecision::Respond(unhandled_request_error(state).0, unhandled_request_error(state).1)
        } else {
            SpecDecision::Fail(LspProtocolError::UnexpectedRequest)
        },
    }
}

/// The messages that an initialized server announces and takes: the handler, the kind of message
/// and its method.
pub open spec fn active_methods() -> Seq<(Handler, MessageKind, Seq<char>)> {
    seq![
        (Handler::Shutdown, MessageKind::Request, "shutdown"@),
        (Handler::Hover, MessageKind::Request, "textDocument/hover"@),
        (Handler::Completion, MessageKind::Request, "textDocument/completion"@),
        (Handler::DidOpenTextDocument, MessageKind::Notification, "textDocument/didOpen"@),
        (Handler::DidChangeTextDocument, MessageKind::Notification, "textDocument/didChange"@),
        (Handler::DidSaveTextDocument, MessageKind::Notification, "textDocument/didSave"@),
        (Handler::DidCloseTextDocument, MessageKind::Notification, "textDocument/didClose"@),
        (Handler::SetTrace, MessageKind::Notification, "$/setTrace"@),
        (Handler::DidChangeWatchedFiles, MessageKind::Notification, "workspace/didChangeWatchedFiles"@),
        (Handler::Exit, MessageKind::Notification, "exit"@),
    ]
}

/// An initialized server hands every message that it announces to that message's handler.
pub proof fn lemma_active_dispatch(k: int)
    requires
        0 <= k < active_methods().len(),
    ensures
        spec_dispatch(LspServerState::ActiveInitialized, active_methods()[k].1, active_methods()[k].2) matches SpecDecision::Handle(h, _)
            && h == active_methods()[k].0,
{
    reveal_strlit("shutdown");
    reveal_strlit("textDocument/hover");
    reveal_strlit("textDocument/completion");
    reveal_strlit("textDocument/didOpen");
    reveal_strlit("textDocument/didChange");
    reveal_strlit("textDocument/didSave");
    reveal_strlit("textDocument/didClose");
    reveal_strlit("$/setTrace");
    reveal_strlit("workspace/didChangeWatchedFiles");
    reveal_strlit("exit");
    reveal_with_fuel(find_handler, 11);
    let regs = registered(LspServerState::ActiveInitialized);
    let (h, kind, m) = active_methods()[k];
    assert(handler_method(h) == m);
    assert forall|j: int| 0 <= j < regs.len() && regs[j].0 != h implies handler_method(#[trigger] regs[j].0) != m by {
        let g = regs[j].0;
        if handler_method(g).len() == m.len() {
            assert(handler_method(g)[0] != m[0] || handler_method(g)[16] != m[16]);
        }
    }
}

/// The lifecycle of the server: `initialize` is the only request an uninitialized server
/// handles and it leads to initializing, `initialized` completes the initialization, `shutdown`
/// leads to shutting down and `exit` to stopping, from every state but the stopped one; every
/// other request of an uninitialized server is refused as not initialized.
pub proof fn lemma_lifecycle_dispatch(method: Seq<char>)
    ensures
        spec_dispatch(LspServerState::ActiveUninitialized, MessageKind::Request, "initialize"@) == SpecDecision::Handle(
            Handler::Initialize,
            LspTransitionTarget::Next(LspServerState::Initializing),
        ),
        spec_dispatch(LspServerState::Initializing, MessageKind::Notification, "initialized"@) == SpecDecision::Handle(
            Handler::Initialized,
            LspTransitionTarget::Next(LspServerState::ActiveInitialized),
        ),
        spec_dispatch(LspServerState::ActiveInitialized, MessageKind::Request, "shutdown"@) == SpecDecision::Handle(
            Handler::Shutdown,
            LspTransitionTarget::Next(LspServerState::ShuttingDown),
        ),
        spec_dispatch(LspServerState::ActiveUninitialized, MessageKind::Notification, "exit"@) == SpecDecision::Handle(
            Handler::Exit,
            LspTransitionTarget::Next(LspServerState::Stopped),
        ),
        spec_dispatch(LspServerState::Initializing, MessageKind::Notification, "exit"@) == SpecDecision::Handle(
            Handler::Exit,
            LspTransitionTarget::Next(LspServerState::Stopped),
        ),
        spec_dispatch(LspServerState::ActiveInitialized, MessageKind::Notification, "exit"@) == SpecDecision::Handle(
            Handler::Exit,
            LspTransitionTarget::Next(LspServerState::Stopped),
        ),
        spec_dispatch(LspServerState::ShuttingDown, MessageKind::Notification, "exit"@) == SpecDecision::Handle(
            Handler::Exit,
            LspTransitionTarget::Next(LspServerState::Stopped),
        ),
        method != "initialize"@ ==> (spec_dispatch(LspServerState::ActiveUninitialized, MessageKind::Request, method)
            matches SpecDecision::Respond(code, _) && code == ErrorCode::ServerNotInitialized),
{
    reveal_strlit("initialize");
    reveal_strlit("initialized");
    reveal_strlit("shutdown");
    reveal_strlit("exit");
    reveal_with_fuel(find_handler, 11);
    assert("initialize"@.len() == 10);
    assert("initialized"@.len() == 11);
    assert("exit"@.len() == 4);
    assert("shutdown"@.len() == 8);
    reveal_strlit("textDocument/hover");
    reveal_strlit("textDocument/completion");
    reveal_strlit("textDocument/didOpen");
    reveal_strlit("textDocument/didChange");
    reveal_strlit("textDocument/didSave");
    reveal_strlit("textDocument/didClose");
    reveal_strlit("$/setTrace");
    reveal_strlit("workspace/didChangeWatchedFiles");
    let regs = registered(LspServerState::ActiveInitialized);
    assert forall|j: int| 0 <= j < 9 implies handler_method(#[trigger] regs[j].0) != "exit"@ by {
        assert(handler_method(regs[j].0).len() != 4);
    }
}

/// The state after a handler that asked for `target` succeeded in `current`.
pub open spec fn spec_next_state(target: LspTransitionTarget, current: LspServerState) -> LspServerState {
    match target {
        LspTransitionTarget::Next(s) => s,
        LspTransitionTarget::Current => current,
    }
}

/// What answers a processed message.
#[derive(Clone, Copy, Debug, PartialEq, Eq, Structural)]
pub enum Reply {
    /// A response that carries the handler's result.
    Result,
    /// An error response with the handler's message and this code.
    HandlerError(ErrorCode),
    /// The error response of the dispatch decision.
    DispatchError,
    /// Nothing: the message was a notification.
    Nothing,
}

/// The method of the messages that `h` processes.
pub fn method_of(h: Handler) -> (r: &'static str)
    ensures
        r@ == handler_method(h),
{
    match h {
        Handler::Initialize => "initialize",
        Handler::Initialized => "initialized",
        Handler::Shutdown => "shutdown",
        Handler::Exit => "exit",
        Handler::Hover => "textDocument/hover",
        Handler::Completion => "textDocument/completion",
        Handler::DidChangeTextDocument => "textDocument/didChange",
        Handler::DidCloseTextDocument => "textDocument/didClose",
        Handler::DidOpenTextDocument => "textDocument/didOpen",
        Handler::DidSaveTextDocument => "textDocument/didSave",
        Handler::SetTrace => "$/setTrace",
        Handler::DidChangeWatchedFiles => "workspace/didChangeWatchedFiles",
    }
}

fn answers_requests(h: Handler) -> (r: bool)
    ensures
        r == handles_requests(h),
{
    match h {
        Handler::Initialize | Handler::Shutdown | Handler::Hover | Handler::Completion => true,
        _ => false,
    }
}

/// The handlers registered in `state` (see [`registered`]).
fn create_dispatcher(state: LspServerState) -> (r: Vec<(Handler, LspTransitionTarget)>)
    ensures
        r@ == registered(state),
{
    let r = match state {
        LspServerState::ActiveUninitialized => vec![
            (Handler::Initialize, LspTransitionTarget::Next(LspServerState::Initializing)),
            (Handler::Exit, LspTransitionTarget::Next(LspServerState::Stopped)),
        ],
        LspServerState::Initializing => vec![
            (Handler::Initialized, LspTransitionTarget::Next(LspServerState::ActiveInitialized)),
            (Handler::Exit, LspTransitionTarget::Next(LspServerState::Stopped)),
        ],
        LspServerState::ActiveInitialized => vec![
            (Handler::Shutdown, LspTransitionTarget::Next(LspServerState::ShuttingDown)),
            (Handler::Hover, LspTransitionTarget::Current),
            (Handler::Completion, LspTransitionTarget::Current),
            (Handler::DidChangeTextDocument, LspTransitionTarget::Current),
            (Handler::DidCloseTextDocument, LspTransitionTarget::Current),
            (Handler::DidOpenTextDocument, LspTransitionTarget::Current),
            (Handler::DidSaveTextDocument, LspTransitionTarget::Current),
            (Handler::SetTrace, LspTransitionTarget::Current),
            (Handler::DidChangeWatchedFiles, LspTransitionTarget::Current),
            (Handler::Exit, LspTransitionTarget::Next(LspServerState::Stopped)),
        ],
        LspServerState::ShuttingDown => vec![(Handler::Exit, LspTransitionTarget::Next(LspServerState::Stopped))],
        LspServerState::Stopped => Vec::new(),
    };
    assert(r@ =~= registered(state));
    r
}


/// The error response of `state` for a request without a handler (see
/// [`unhandled_request_error`]).
fn missing_handler_error(state: LspServerState) -> (r: (ErrorCode, &'static str))
    ensures
        r.0 == unhandled_request_error(state).0,
        r.1@ == unhandled_request_error(state).1,
{
    match state {
        LspServerState::ActiveUninitialized => (ErrorCode::ServerNotInitialized, "An 'initialize' request is required."),
        LspServerState::Initializing => (ErrorCode::ServerNotInitialized, "The server is initializing."),
        LspServerState::ActiveInitialized => (ErrorCode::InternalError, "Internal server error."),
        LspServerState::ShuttingDown => (ErrorCode::InvalidRequest, "The server is currently shutting down."),
        LspServerState::Stopped => (ErrorCode::InvalidRequest, "The server has stopped."),
    }
}

/// What the dispatcher of `state` does with a message of `kind` and
/// `method` (see [`spec_dispatch`]).
pub fn dispatch(state: LspServerState, kind: MessageKind, method: &str) -> (r: Decision)
    ensures
        r@ == spec_dispatch(state, kind, method@),
{
    let regs = create_dispatcher(state);
    let mut i: usize = 0;
    while i < regs.len()
        invariant
            i <= regs.len(),
            regs@ == registered(state),
            find_handler(regs@, kind, method@, i as int) == find_handler(regs@, kind, method@, 0),
        decreases regs.len() - i,
    {
        let (h, t) = regs[i];
        if answers_requests(h) == (kind == MessageKind::Request) && kind != MessageKind::Response && same_text(
            method_of(h),
            method,
        ) {
            return Decision::Handle(h, t);
        }
        i = i + 1;
    }
    if kind == MessageKind::Request {
        let (code, message) = missing_handler_error(state);
        Decision::Respond(code, String::from_str(message))
    } else {
        Decision::Fail(LspProtocolError::UnexpectedRequest)
    }
}

/// The state after a handler that asked for `target` succeeded in `current`.
pub fn next_state(target: LspTransitionTarget, current: LspServerState) -> (r: LspServerState)
    ensures
        r == spec_next_state(target, current),
{
    match target {
        LspTransitionTarget::Next(s) => s,
        LspTransitionTarget::Current => current,
    }
}

/// What processing a message gives, after `decision` on a message of
/// `kind`, given whether its parameters could be read and whether its
/// handler succeeded: the reply and the next state, or a protocol error.
pub open spec fn spec_complete(
    current: LspServerState,
    decision: SpecDecision,
    kind: MessageKind,
    params_ok: bool,
    handler_ok: bool,
) -> Result<(Reply, LspServerState), LspProtocolError> {
    match decision {
        SpecDecision::Handle(_, target) => if kind == MessageKind::Response {
            Err(LspProtocolError::UnexpectedRequest)
        } else if !params_ok {
            Err(LspProtocolError::BadRequest(DeserializeError))
        } else if kind == MessageKind::Request {
            if handler_ok {
                Ok((Reply::Result, spec_next_state(target, current)))
            } else {
                Ok((Reply::HandlerError(ErrorCode::InternalError), current))
            }
        } else if handler_ok {
            Ok((Reply::Nothing, spec_next_state(target, current)))
        } else {
            Ok((Reply::Nothing, current))
        },
        SpecDecision::Respond(_, _) => Ok((Reply::DispatchError, current)),
        SpecDecision::Fail(e) => Err(e),
    }
}

/// A state machine that follows the lifecycle of a language server: the
/// client's messages move it from state to state, and in each state a
/// message either reaches its handler or gets the state's error response.
pub struct LspProtocolMachine {
    current_state: LspServerState,
}

impl LspProtocolMachine {
    /// The current state.
    pub closed spec fn state(&self) -> LspServerState {
        self.current_state
    }

    /// A machine in its initial state, [`LspServerState::ActiveUninitialized`].
    pub fn new() -> (r: Self)
        ensures
            r.state() == LspServerState::ActiveUninitialized,
    {
        LspProtocolMachine { current_state: LspServerState::ActiveUninitialized }
    }

    /// The current state.
    pub fn current_state(&self) -> (r: LspServerState)
        ensures
            r == self.state(),
    {
        self.current_state
    }

    /// Whether the machine has not stopped.
    pub fn is_active(&self) -> (r: bool)
        ensures
            r == (self.state() != LspServerState::Stopped),
    {
        !(self.current_state == LspServerState::Stopped)
    }

    /// What the current state does with a message of `kind` and `method`.
    pub fn get_dispatcher(&self, kind: MessageKind, method: &str) -> (r: Decision)
        ensures
            r@ == spec_dispatch(self.state(), kind, method@),
    {
        dispatch(self.current_state, kind, method)
    }

    /// Completes the processing of a message after `decision` (see
    /// [`spec_complete`]): moves to the next state and tells the reply.
    pub fn process_message(
        &mut self,
        decision: &Decision,
        kind: MessageKind,
        params_ok: bool,
        handler_ok: bool,
    ) -> (r: Result<Reply, LspProtocolError>)
        ensures
            match spec_complete(old(self).state(), decision@, kind, params_ok, handler_ok) {
                Ok((reply, next)) => r == Ok::<Reply, LspProtocolError>(reply) && final(self).state() == next,
                Err(e) => r == Err::<Reply, LspProtocolError>(e) && final(self).state() == old(self).state(),
            },
    {
        match decision {
            Decision::Handle(_, target) => {
                if kind == MessageKind::Response {
                    return Err(LspProtocolError::UnexpectedRequest);
                }
                if !params_ok {
                    return Err(LspProtocolError::BadRequest(DeserializeError));
                }
                if kind == MessageKind::Request {
                    if handler_ok {
                        self.current_state = next_state(*target, self.current_state);
                        Ok(Reply::Result)
                    } else {
                        Ok(Reply::HandlerError(ErrorCode::InternalError))
                    }
                } else {
                    if handler_ok {
                        self.current_state = next_state(*target, self.current_state);
                    }
                    Ok(Reply::Nothing)
                }
            },
            Decision::Respond(_, _) => Ok(Reply::DispatchError),
            Decision::Fail(e) => Err(*e),
        }
    }
}

/// A stopped server stays stopped, whatever message comes.
pub proof fn lemma_stopped_is_final(kind: MessageKind, method: Seq<char>, params_ok: bool, handler_ok: bool)
    ensures
        spec_complete(
            LspServerState::Stopped,
            spec_dispatch(LspServerState::Stopped, kind, method),
            kind,
            params_ok,
            handler_ok,
        ) matches Ok((_, next)) ==> next == LspServerState::Stopped,
{
    assert(find_handler(registered(LspServerState::Stopped), kind, method, 0) is None);
}

/// Whether `next` may follow `current` in the lifecycle: the state stays,
/// moves one step along (from waiting for `initialize` to initializing, to
/// initialized, to shutting down), or the server stops.
pub open spec fn lifecycle_step(current: LspServerState, next: LspServerState) -> bool {
    ||| next == current
    ||| current == LspServerState::ActiveUninitialized && next == LspServerState::Initializing
    ||| current == LspServerState::Initializing && next == LspServerState::ActiveInitialized
    ||| current == LspServerState::ActiveInitialized && next == LspServerState::ShuttingDown
    ||| next == LspServerState::Stopped
}

/// Every processed message follows the lifecycle, and only `exit` stops the
/// server.
pub proof fn lemma_lifecycle(
    current: LspServerState,
    kind: MessageKind,
    method: Seq<char>,
    params_ok: bool,
    handler_ok: bool,
)
    ensures
        spec_complete(current, spec_dispatch(current, kind, method), kind, params_ok, handler_ok) matches Ok(
            (_, next),
        ) ==> lifecycle_step(current, next) && (next == LspServerState::Stopped && current
            != LspServerState::Stopped ==> kind == MessageKind::Notification && method == "exit"@),
{
    let regs = registered(current);
    lemma_find_handler(regs, kind, method, 0);
    if let Some(i) = find_handler(regs, kind, method, 0) {
        assert(regs[i].1 is Next ==> (regs[i].0 == Handler::Exit || lifecycle_step(current, regs[i].1->0)));
    }
}

/// A handler found is one of the registered handlers, for the message's
/// method and kind.
proof fn lemma_find_handler(regs: Seq<(Handler, LspTransitionTarget)>, kind: MessageKind, method: Seq<char>, i: int)
    ensures
        find_handler(regs, kind, method, i) matches Some(k) ==> 0 <= k < regs.len() && handler_method(regs[k].0)
            == method && handles_requests(regs[k].0) == (kind == MessageKind::Request) && kind
            != MessageKind::Response,
    decreases regs.len() - i,
{
    if 0 <= i < regs.len() {
        lemma_find_handler(regs, kind, method, i + 1);
    }
}

} // verus!
