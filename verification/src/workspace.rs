//! Workspaces opened by a client, and the indexing state of their files.
use vstd::prelude::*;
use crate::base_abstractions::FileId;
use crate::futures_extensions::FutureCompletionSource;

verus! {

// ---------------------------------------------------------------------------------------------
// URLs
// ---------------------------------------------------------------------------------------------

/// What `url::Url::make_relative` (re-exported as `lsp_types::Url`) gives for the URLs that `base` and `target` parse into: the
/// relative reference from `base` to `target`, `None` where one cannot be made (or a text does
/// not parse as a URL). It names `url::Url::parse` of both texts followed by `make_relative`, all
/// of which depend on their arguments alone.
pub uninterp spec fn relative_url(base: Seq<char>, target: Seq<char>) -> Option<Seq<char>>;

/// `url::Url::make_relative` on the parsed URLs `base` and `target` (`None` where either does not
/// parse). The result is named by [`relative_url`]; nothing more of it is stated.
#[verifier::external_body]
fn make_relative(base: &str, target: &str) -> (r: Option<String>)
    ensures
        match r {
            Some(s) => relative_url(base@, target@) == Some(s@),
            None => relative_url(base@, target@) is None,
        },
{
    match (lsp_types::Url::parse(base), lsp_types::Url::parse(target)) {
        (Ok(b), Ok(t)) => b.make_relative(&t),
        _ => None,
    }
}

/// A relative reference reaches a descendant when it does not climb out with `..`.
pub open spec fn is_descendant_reference(relative: Option<Seq<char>>) -> bool {
    match relative {
        Some(r) => !(r.len() >= 2 && r[0] == '.' && r[1] == '.'),
        None => false,
    }
}

/// Whether the relative reference `relative` (from a base to a target) stays below the base.
pub fn is_descendant_relative(relative: &Option<String>) -> (r: bool)
    ensures
        r == is_descendant_reference(
            match relative {
                Some(s) => Some(s@),
                None => None,
            },
        ),
{
    match relative {
        Some(s) => {
            let cs = crate::text::chars_of(s.as_str());
            !(cs.len() >= 2 && cs[0] == '.' && cs[1] == '.')
        },
        None => false,
    }
}

/// Whether `target` lies below `base`.
pub fn is_descendant_path(base: &str, target: &str) -> (r: bool)
    ensures
        r == is_descendant_reference(relative_url(base@, target@)),
{
    let relative = make_relative(base, target);
    is_descendant_relative(&relative)
}

/// What `url::Url::parse` gives for `s`: the serialization of the URL, `None` where `s` is not an
/// absolute URL.
pub uninterp spec fn parsed_url(s: Seq<char>) -> Option<Seq<char>>;

/// `url::Url::parse`, as the serialization of the URL. The result is named by [`parsed_url`].
#[verifier::external_body]
fn url_parse(s: &str) -> (r: Option<String>)
    ensures
        match r {
            Some(t) => parsed_url(s@) == Some(t@),
            None => parsed_url(s@) is None,
        },
{
    match lsp_types::Url::parse(s) {
        Ok(u) => Some(u.as_str().to_string()),
        Err(_) => None,
    }
}

/// What `url::Url::join` gives for `path` on the URL that `base` parses into: the serialization
/// of the joined URL, or the text of the error; `None` where `base` does not parse. It names
/// `url::Url::parse` of `base` followed by `join`, both of which depend on their arguments alone.
pub uninterp spec fn joined_url(base: Seq<char>, path: Seq<char>) -> Option<Result<Seq<char>, Seq<char>>>;

/// `url::Url::join` of `path` on the parsed `base` (`None` where `base` does not parse, as
/// `url::Url::parse` decides). The result is named by [`joined_url`].
#[verifier::external_body]
fn url_join(base: &str, path: &str) -> (r: Option<Result<String, String>>)
    ensures
        r is Some <==> parsed_url(base@) is Some,
        match r {
            Some(Ok(t)) => joined_url(base@, path@) == Some(Ok::<Seq<char>, Seq<char>>(t@)),
            Some(Err(e)) => joined_url(base@, path@) == Some(Err::<Seq<char>, Seq<char>>(e@)),
            None => joined_url(base@, path@) is None,
        },
{
    match lsp_types::Url::parse(base) {
        Ok(b) => match b.join(path) {
            Ok(t) => Some(Ok(t.as_str().to_string())),
            Err(e) => Some(Err(e.to_string())),
        },
        Err(_) => None,
    }
}

/// Where a path resolves, relative to an absolute base URL: the path itself when it is an
/// absolute URL, else the path joined onto the base.
pub open spec fn spec_resolve_path(base: Seq<char>, path: Seq<char>) -> Result<Seq<char>, Seq<char>> {
    match parsed_url(path) {
        Some(t) => Ok(t),
        None => match joined_url(base, path) {
            Some(Ok(t)) => Ok(t),
            Some(Err(e)) => Err(
                "Could not find path '"@ + path + "' (relative to '"@ + base + "'). "@ + e,
            ),
            None => Err(Seq::empty()),
        },
    }
}

/// Resolves `path` relative to the absolute URL `absolute_base_url`. A base that is not a URL is
/// only allowed where `path` is one.
pub fn resolve_path(absolute_base_url: &str, path: &str) -> (r: Result<String, String>)
    requires
        parsed_url(path@) is Some || parsed_url(absolute_base_url@) is Some,
    ensures
        match r {
            Ok(t) => spec_resolve_path(absolute_base_url@, path@) == Ok::<Seq<char>, Seq<char>>(t@),
            Err(e) => spec_resolve_path(absolute_base_url@, path@) == Err::<Seq<char>, Seq<char>>(
                e@,
            ),
        },
{
    if let Some(t) = url_parse(path) {
        return Ok(t);
    }
    match url_join(absolute_base_url, path) {
        Some(Ok(t)) => Ok(t),
        Some(Err(e)) => {
            let mut msg = String::from_str("Could not find path '");
            msg.append(path);
            msg.append("' (relative to '");
            msg.append(absolute_base_url);
            msg.append("'). ");
            msg.append(e.as_str());
            Err(msg)
        },
        None => {
            proof {
                assert(false);
            }
            Err(String::new())
        },
    }
}

/// [`resolve_path`] where the base may be no URL: `None` where neither the path nor the base
/// is an absolute URL.
pub fn try_resolve_path(absolute_base_url: &str, path: &str) -> (r: Option<Result<String, String>>)
    ensures
        (parsed_url(path@) is Some || parsed_url(absolute_base_url@) is Some) <==> r is Some,
        r matches Some(res) ==> match res {
            Ok(t) => spec_resolve_path(absolute_base_url@, path@) == Ok::<Seq<char>, Seq<char>>(t@),
            Err(e) => spec_resolve_path(absolute_base_url@, path@) == Err::<Seq<char>, Seq<char>>(
                e@,
            ),
        },
{
    if url_parse(path).is_none() && url_parse(absolute_base_url).is_none() {
        return None;
    }
    Some(resolve_path(absolute_base_url, path))
}

// ---------------------------------------------------------------------------------------------
// Workspaces
// ---------------------------------------------------------------------------------------------

/// A folder opened as a workspace.
#[derive(Clone, Debug)]
pub struct WorkspaceFolder {
    pub name: String,
    pub uri: String,
}

/// The workspaces of a client: the folders it opened, or a catch-all root folder.
pub struct WorkspaceManager {
    has_workspaces: bool,
    workspaces: Vec<WorkspaceFolder>,
}

pub open spec fn folder_uris(folders: Seq<WorkspaceFolder>) -> Seq<Seq<char>> {
    folders.map_values(|f: WorkspaceFolder| f.uri@)
}

/// The first of `uris`, from the `i`-th on, of which `uri` is a descendant.
pub open spec fn first_workspace(uris: Seq<Seq<char>>, uri: Seq<char>, i: int) -> Option<int>
    decreases uris.len() - i,
{
    if i < 0 || i >= uris.len() {
        None
    } else if is_descendant_reference(relative_url(uris[i], uri)) {
        Some(i)
    } else {
        first_workspace(uris, uri, i + 1)
    }
}

impl WorkspaceManager {
    pub closed spec fn spec_has_workspaces(&self) -> bool {
        self.has_workspaces
    }

    pub closed spec fn spec_workspaces(&self) -> Seq<WorkspaceFolder> {
        self.workspaces@
    }

    /// The workspace folders.
    pub fn workspaces(&self) -> (r: &Vec<WorkspaceFolder>)
        ensures
            r@ == self.spec_workspaces(),
    {
        &self.workspaces
    }

    /// The workspaces for the folders a client opened; without any, the catch-all folder
    /// `<*>` at `file:///`.
    pub fn new(workspace_folders: Option<Vec<WorkspaceFolder>>) -> (r: Self)
        ensures
            r.spec_has_workspaces() == workspace_folders is Some,
            workspace_folders matches Some(f) ==> r.spec_workspaces() == f@,
            workspace_folders is None ==> r.spec_workspaces().len() == 1
                && r.spec_workspaces()[0].name@ == "<*>"@ && r.spec_workspaces()[0].uri@
                == "file:///"@,
    {
        match workspace_folders {
            Some(folders) => WorkspaceManager { has_workspaces: true, workspaces: folders },
            None => WorkspaceManager {
                has_workspaces: false,
                workspaces: vec![
                    WorkspaceFolder {
                        name: String::from_str("<*>"),
                        uri: String::from_str("file:///"),
                    },
                ],
            },
        }
    }

    /// Whether the client opened workspace folders.
    pub fn has_workspaces(&self) -> (r: bool)
        ensures
            r == self.spec_has_workspaces(),
    {
        self.has_workspaces
    }

    /// The index of the first workspace that `uri` lies in.
    pub fn find_workspace(&self, uri: &str) -> (r: Option<usize>)
        ensures
            match r {
                Some(i) => first_workspace(folder_uris(self.spec_workspaces()), uri@, 0) == Some(
                    i as int,
                ),
                None => first_workspace(folder_uris(self.spec_workspaces()), uri@, 0) is None,
            },
    {
        let ghost uris = folder_uris(self.workspaces@);
        let mut i: usize = 0;
        while i < self.workspaces.len()
            invariant
                i <= self.workspaces.len(),
                uris == folder_uris(self.workspaces@),
                first_workspace(uris, uri@, i as int) == first_workspace(uris, uri@, 0),
            decreases self.workspaces.len() - i,
        {
            if is_descendant_path(self.workspaces[i].uri.as_str(), uri) {
                return Some(i);
            }
            i = i + 1;
        }
        None
    }
}

// ---------------------------------------------------------------------------------------------
// Files
// ---------------------------------------------------------------------------------------------

/// Why a file has no parsed unit.
#[derive(Clone, Copy, Debug, PartialEq, Eq, Structural)]
pub enum IndexError {
    Unexpected,
    NotFound,
}

impl IndexError {
    pub fn to_string(&self) -> (r: String)
        ensures
            *self == IndexError::Unexpected ==> r@
                == "An unexpected error occurred during file indexing."@,
            *self == IndexError::NotFound ==> r@ == "The file could not be found."@,
    {
        match self {
            IndexError::Unexpected => String::from_str(
                "An unexpected error occurred during file indexing.",
            ),
            IndexError::NotFound => String::from_str("The file could not be found."),
        }
    }
}

/// Whether a file is open in the client, and its parsed unit once known.
pub struct FileState {
    pub is_open_in_ide: bool,
    pub parsed_unit: FutureCompletionSource<FileId, IndexError>,
}

impl FileState {
    /// A file that is not open and has no parsed unit yet.
    pub fn new() -> (r: Self)
        ensures
            !r.is_open_in_ide,
            r.parsed_unit.spec_state() is None,
    {
        FileState { is_open_in_ide: false, parsed_unit: FutureCompletionSource::new() }
    }

    /// The client opened or changed the file; its parsed unit is now `parsed_unit`.
    pub fn open_or_update(&mut self, parsed_unit: FileId)
        ensures
            final(self).is_open_in_ide,
            final(self).parsed_unit.spec_state() == Some(Ok::<FileId, IndexError>(parsed_unit)),
    {
        self.is_open_in_ide = true;
        self.set_parsed_unit(parsed_unit);
    }

    /// The client closed the file.
    pub fn close(&mut self)
        ensures
            !final(self).is_open_in_ide,
            final(self).parsed_unit.spec_state() == old(self).parsed_unit.spec_state(),
    {
        self.is_open_in_ide = false;
    }

    /// Sets the parsed unit: completes a pending source, or replaces what it held.
    pub fn set_parsed_unit(&mut self, parsed_unit: FileId)
        ensures
            final(self).is_open_in_ide == old(self).is_open_in_ide,
            final(self).parsed_unit.spec_state() == Some(Ok::<FileId, IndexError>(parsed_unit)),
    {
        if self.parsed_unit.is_completed() {
            self.parsed_unit = FutureCompletionSource::new_with_value(parsed_unit);
        } else {
            let _ = self.parsed_unit.set_value(parsed_unit);
        }
    }

    /// Sets an indexing error: completes a pending source, or replaces what it held.
    pub fn set_index_error(&mut self, error: IndexError)
        ensures
            final(self).is_open_in_ide == old(self).is_open_in_ide,
            final(self).parsed_unit.spec_state() == Some(Err::<FileId, IndexError>(error)),
    {
        if self.parsed_unit.is_completed() {
            let mut fresh = FutureCompletionSource::new();
            let _ = fresh.set_err(error);
            self.parsed_unit = fresh;
        } else {
            let _ = self.parsed_unit.set_err(error);
        }
    }
}

/// The files that the server knows of, by URI: each URI once, with its state.
pub struct FileTable {
    entries: Vec<(String, FileState)>,
}

/// No URI occurs twice.
pub open spec fn distinct_uris(uris: Seq<Seq<char>>) -> bool {
    forall|i: int, j: int| 0 <= i < j < uris.len() ==> #[trigger] uris[i] != #[trigger] uris[j]
}

/// The index of `uri` in `uris`, from `i` on.
pub open spec fn uri_index(uris: Seq<Seq<char>>, uri: Seq<char>, i: int) -> Option<int>
    decreases uris.len() - i,
{
    if !(0 <= i < uris.len()) {
        None
    } else if uris[i] == uri {
        Some(i)
    } else {
        uri_index(uris, uri, i + 1)
    }
}

impl FileTable {
    /// The URIs of the files, in the order in which they became known.
    pub closed spec fn spec_uris(&self) -> Seq<Seq<char>> {
        self.entries@.map_values(|e: (String, FileState)| e.0@)
    }

    /// The state of each file, in the order of [`Self::spec_uris`].
    pub closed spec fn spec_states(&self) -> Seq<FileState> {
        self.entries@.map_values(|e: (String, FileState)| e.1)
    }

    /// Each URI is held once.
    pub closed spec fn wf(&self) -> bool {
        distinct_uris(self.spec_uris())
    }

    /// Well-formedness is a matter of the URIs alone.
    pub proof fn lemma_wf_of_uris(a: &FileTable, b: &FileTable)
        requires
            a.wf(),
            a.spec_uris() == b.spec_uris(),
        ensures
            b.wf(),
    {
    }

    /// No files.
    pub fn new() -> (r: Self)
        ensures
            r.wf(),
            r.spec_uris() == Seq::<Seq<char>>::empty(),
            r.spec_states() == Seq::<FileState>::empty(),
    {
        let r = FileTable { entries: Vec::new() };
        assert(r.spec_uris() =~= Seq::<Seq<char>>::empty());
        assert(r.spec_states() =~= Seq::<FileState>::empty());
        r
    }

    /// The number of files.
    pub fn len(&self) -> (r: usize)
        ensures
            r == self.spec_uris().len(),
    {
        self.entries.len()
    }

    /// The index of the file `uri`, if it is known.
    pub fn find(&self, uri: &str) -> (r: Option<usize>)
        ensures
            r matches Some(i) ==> uri_index(self.spec_uris(), uri@, 0) == Some(i as int),
            r is None ==> uri_index(self.spec_uris(), uri@, 0) is None,
    {
        let mut i: usize = 0;
        while i < self.entries.len()
            invariant
                i <= self.entries.len(),
                uri_index(self.spec_uris(), uri@, i as int) == uri_index(self.spec_uris(), uri@, 0),
            decreases self.entries.len() - i,
        {
            if crate::text::same_text(self.entries[i].0.as_str(), uri) {
                return Some(i);
            }
            i = i + 1;
        }
        None
    }

    /// The index of the file `uri`, and whether it was created now: a file that was not known
    /// is added, closed and without a parsed unit, and should be loaded in the background.
    pub fn get_file(&mut self, uri: &str) -> (r: (usize, bool))
        requires
            old(self).wf(),
        ensures
            final(self).wf(),
            match uri_index(old(self).spec_uris(), uri@, 0) {
                Some(i) => r == (i as usize, false) && final(self).spec_uris() == old(self).spec_uris()
                    && final(self).spec_states() == old(self).spec_states(),
                None => {
                    &&& r == (old(self).spec_uris().len() as usize, true)
                    &&& final(self).spec_uris() == old(self).spec_uris().push(uri@)
                    &&& final(self).spec_states().len() == old(self).spec_states().len() + 1
                    &&& final(self).spec_states().take(old(self).spec_states().len() as int)
                        == old(self).spec_states()
                    &&& !final(self).spec_states().last().is_open_in_ide
                    &&& final(self).spec_states().last().parsed_unit.spec_state() is None
                },
            },
    {
        proof {
            lemma_uri_index(self.spec_uris(), uri@, 0);
        }
        match self.find(uri) {
            Some(i) => (i, false),
            None => {
                let n = self.entries.len();
                let ghost u0 = self.spec_uris();
                let ghost s0 = self.spec_states();
                self.entries.push((uri.to_string(), FileState::new()));
                assert(self.spec_uris() =~= u0.push(uri@));
                assert(self.spec_states().take(n as int) =~= s0);
                (n, true)
            },
        }
    }

    /// The state of the `i`-th file, to change in place.
    pub fn file_mut(&mut self, i: usize) -> (r: &mut FileState)
        requires
            i < old(self).spec_uris().len(),
        ensures
            *r == old(self).spec_states()[i as int],
            final(self).spec_uris() == old(self).spec_uris(),
            final(self).spec_states() == old(self).spec_states().update(i as int, *final(r)),
    {
        &mut self.entries[i].1
    }

    /// The state of the `i`-th file.
    pub fn file(&self, i: usize) -> (r: &FileState)
        requires
            i < self.spec_uris().len(),
        ensures
            *r == self.spec_states()[i as int],
    {
        &self.entries[i].1
    }
}

/// The index of `uri` from `i` on is the first entry from `i` on that is `uri`; there is none
/// when no entry from `i` on is `uri`.
pub proof fn lemma_uri_index(uris: Seq<Seq<char>>, uri: Seq<char>, i: int)
    requires
        0 <= i,
    ensures
        uri_index(uris, uri, i) matches Some(k) ==> i <= k < uris.len() && uris[k] == uri,
        uri_index(uris, uri, i) is None ==> forall|j: int| i <= j < uris.len() ==> #[trigger] uris[j] != uri,
    decreases uris.len() - i,
{
    if 0 <= i < uris.len() && uris[i] != uri {
        lemma_uri_index(uris, uri, i + 1);
    }
}

// ---------------------------------------------------------------------------------------------
// Background analysis
// ---------------------------------------------------------------------------------------------

/// What a background analysis of a file has learned so far.
pub enum BackgroundEvent {
    /// The analysis starts; whether the file is open in the client.
    Started { open_in_ide: bool },
    /// The file's contents were read (`None`: not found); whether the file is open now.
    Fetched { contents: Option<String>, open_in_ide: bool },
}

/// What a background analysis does next.
pub enum BackgroundAction {
    /// Nothing: the client holds the file, and is its source of truth.
    Stop,
    /// Read the file's contents.
    FetchContents,
    /// Record that the file could not be found.
    MarkNotFound,
    /// Analyze these contents and record the file's parsed unit.
    Analyze(String),
}

/// The decision of a background analysis after `event`.
pub fn background_step(event: BackgroundEvent) -> (r: BackgroundAction)
    ensures
        match event {
            BackgroundEvent::Started { open_in_ide } => if open_in_ide {
                r is Stop
            } else {
                r is FetchContents
            },
            BackgroundEvent::Fetched { contents, open_in_ide } => match contents {
                None => r is MarkNotFound,
                Some(text) => if open_in_ide {
                    r is Stop
                } else {
                    r matches BackgroundAction::Analyze(t) && t@ == text@
                },
            },
        },
{
    match event {
        BackgroundEvent::Started { open_in_ide } => if open_in_ide {
            BackgroundAction::Stop
        } else {
            BackgroundAction::FetchContents
        },
        BackgroundEvent::Fetched { contents, open_in_ide } => match contents {
            None => BackgroundAction::MarkNotFound,
            Some(text) => if open_in_ide {
                BackgroundAction::Stop
            } else {
                BackgroundAction::Analyze(text)
            },
        },
    }
}

} // verus!
