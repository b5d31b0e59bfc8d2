//! What the server announces to a client: its capabilities at initialization and the file
//! watchers it registers once the client is initialized.
use vstd::prelude::*;

verus! {

/// How a client sends document changes.
#[derive(Clone, Copy, Debug, PartialEq, Eq, Structural)]
pub enum TextDocumentSyncKind {
    NoSync,
    Full,
    Incremental,
}

impl TextDocumentSyncKind {
    /// The protocol's number for the kind.
    pub fn code(self) -> (r: i32)
        ensures
            r == match self {
                TextDocumentSyncKind::NoSync => 0i32,
                TextDocumentSyncKind::Full => 1i32,
                TextDocumentSyncKind::Incremental => 2i32,
            },
    {
        match self {
            TextDocumentSyncKind::NoSync => 0,
            TextDocumentSyncKind::Full => 1,
            TextDocumentSyncKind::Incremental => 2,
        }
    }
}

/// Support for workspace folders.
#[derive(Clone, Copy, Debug, PartialEq, Eq, Structural)]
pub struct WorkspaceFoldersCapability {
    pub supported: bool,
    pub change_notifications: bool,
}

/// The server's capabilities, as far as the server sets them.
#[derive(Clone, Debug)]
pub struct ServerCapabilities {
    /// Saved documents are sent with their text.
    pub save_include_text: bool,
    pub change: TextDocumentSyncKind,
    pub workspace_folders: Option<WorkspaceFoldersCapability>,
    pub completion_resolve_provider: bool,
    pub completion_trigger_characters: Vec<String>,
    pub hover_provider: bool,
    pub signature_help_trigger_characters: Vec<String>,
    pub declaration_provider: bool,
    pub definition_provider: bool,
    pub type_definition_provider: bool,
    pub implementation_provider: bool,
    pub references_provider: bool,
}

#[derive(Clone, Debug)]
pub struct ServerInfo {
    pub name: String,
    pub version: String,
}

/// The answer to an `initialize` request.
#[derive(Clone, Debug)]
pub struct InitializeResult {
    pub capabilities: ServerCapabilities,
    pub server_info: ServerInfo,
}

pub open spec fn strings_view(v: Seq<String>) -> Seq<Seq<char>> {
    v.map_values(|s: String| s@)
}

/// The capabilities of the server; workspace-folder support is announced only when asked for.
pub open spec fn spec_initialize_result(r: InitializeResult, include_workspace_folders: bool) -> bool {
    let c = r.capabilities;
    &&& c.save_include_text
    &&& c.change == TextDocumentSyncKind::Incremental
    &&& c.workspace_folders == if include_workspace_folders {
        Some(WorkspaceFoldersCapability { supported: true, change_notifications: true })
    } else {
        None
    }
    &&& c.completion_resolve_provider
    &&& strings_view(c.completion_trigger_characters@) == seq![seq!['('], seq!['<'], seq!['.']]
    &&& c.hover_provider
    &&& strings_view(c.signature_help_trigger_characters@) == seq![seq!['('], seq![',']]
    &&& c.declaration_provider
    &&& c.definition_provider
    &&& c.type_definition_provider
    &&& c.implementation_provider
    &&& c.references_provider
    &&& r.server_info.name@ == "P4 Analyzer"@
    &&& r.server_info.version@ == "0.0.0"@
}

fn one_char(c: char) -> (r: String)
    ensures
        r@ == seq![c],
{
    let mut s = String::new();
    s.push(c);
    assert(s@ =~= seq![c]);
    s
}

/// Creates the [`InitializeResult`] that describes the capabilities of the analyzer.
pub fn create_initialize_result(include_workspace_folders: bool) -> (r: InitializeResult)
    ensures
        spec_initialize_result(r, include_workspace_folders),
{
    let workspace_folders = if include_workspace_folders {
        Some(WorkspaceFoldersCapability { supported: true, change_notifications: true })
    } else {
        None
    };
    let completion_trigger_characters = vec![one_char('('), one_char('<'), one_char('.')];
    let signature_help_trigger_characters = vec![one_char('('), one_char(',')];
    let r = InitializeResult {
        capabilities: ServerCapabilities {
            save_include_text: true,
            change: TextDocumentSyncKind::Incremental,
            workspace_folders,
            completion_resolve_provider: true,
            completion_trigger_characters,
            hover_provider: true,
            signature_help_trigger_characters,
            declaration_provider: true,
            definition_provider: true,
            type_definition_provider: true,
            implementation_provider: true,
            references_provider: true,
        },
        server_info: ServerInfo {
            name: String::from_str("P4 Analyzer"),
            version: String::from_str("0.0.0"),
        },
    };
    proof {
        assert(strings_view(r.capabilities.completion_trigger_characters@) =~= seq![
            seq!['('],
            seq!['<'],
            seq!['.'],
        ]);
        assert(strings_view(r.capabilities.signature_help_trigger_characters@) =~= seq![
            seq!['('],
            seq![','],
        ]);
    }
    r
}

pub open spec fn watched_files_requirement() -> Seq<char> {
    "P4 Analyzer requires the Watched Files ('workspace.didChangeWatchedFiles') capability from the LSP client."@
}

/// The answer to an `initialize` request. Without workspace folders the server announces its
/// plain capabilities; with them it relies on the client to watch files, and refuses a client
/// that cannot.
pub fn initialize_response(has_workspaces: bool, client_watches_files: bool) -> (r: Result<
    InitializeResult,
    String,
>)
    ensures
        !has_workspaces ==> r is Ok && spec_initialize_result(r->Ok_0, false),
        has_workspaces && client_watches_files ==> r is Ok && spec_initialize_result(
            r->Ok_0,
            true,
        ),
        has_workspaces && !client_watches_files ==> r is Err && r->Err_0@
            == watched_files_requirement(),
{
    if !has_workspaces {
        return Ok(create_initialize_result(false));
    }
    if client_watches_files {
        Ok(create_initialize_result(true))
    } else {
        Err(
            String::from_str(
                "P4 Analyzer requires the Watched Files ('workspace.didChangeWatchedFiles') capability from the LSP client.",
            ),
        )
    }
}

/// The glob pattern of P4 source files, relative to a workspace folder.
pub fn relative_p4_sourcefiles_globpattern() -> (r: &'static str)
    ensures
        r@ == "**/*.p4"@,
{
    "**/*.p4"
}

/// A dynamic registration of the watcher of P4 source files.
#[derive(Clone, Debug)]
pub struct WatchedFilesRegistration {
    pub id: String,
    pub method: String,
    pub glob_pattern: String,
}

/// The registration that an initialized server asks of the client, when it has workspace
/// folders to watch; `None` without them.
pub fn watched_files_registration(has_workspaces: bool) -> (r: Option<WatchedFilesRegistration>)
    ensures
        r is Some <==> has_workspaces,
        r matches Some(reg) ==> {
            &&& reg.id@ == "p4-analyzer-watched-files"@
            &&& reg.method@ == "workspace/didChangeWatchedFiles"@
            &&& reg.glob_pattern@ == "**/*.p4"@
        },
{
    if !has_workspaces {
        return None;
    }
    Some(
        WatchedFilesRegistration {
            id: String::from_str("p4-analyzer-watched-files"),
            method: String::from_str("workspace/didChangeWatchedFiles"),
            glob_pattern: String::from_str(relative_p4_sourcefiles_globpattern()),
        },
    )
}

} // verus!
