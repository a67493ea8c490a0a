//! The messages that a client and a remote server exchange about repositories.
//!
//! Paths travel as text, and every part of a message that the schema makes optional may be
//! missing, so a message can hold what no repository holds.

use vstd::prelude::*;

use crate::node;
use crate::text;

verus! {

/// A directory, as a message describes it.
#[derive(Debug, PartialEq, Eq)]
pub struct DirectoryNodeMetadata {
    pub path: String,
    pub ignored: bool,
    pub loaded: bool,
}

/// A file, as a message describes it.
#[derive(Debug, PartialEq, Eq)]
pub struct FileNodeMetadata {
    pub path: String,
    pub extension: Option<String>,
    pub ignored: bool,
}

/// The variants of a [`RepoNodeMetadata`].
#[derive(Debug, PartialEq, Eq)]
pub enum Node {
    Directory(DirectoryNodeMetadata),
    File(FileNodeMetadata),
}

/// A file or directory.
#[derive(Debug, PartialEq, Eq)]
pub struct RepoNodeMetadata {
    pub node: Option<Node>,
}

/// The children that a directory is to have from now on.
#[derive(Debug, PartialEq, Eq)]
pub struct RepoMetadataEntryUpdate {
    pub parent_path_to_replace: String,
    pub subtree_metadata: Vec<RepoNodeMetadata>,
}

/// A change to the file tree of a repository.
#[derive(Debug, PartialEq, Eq)]
pub struct RepoMetadataUpdatePush {
    pub repo_path: String,
    pub remove_entries: Vec<String>,
    pub update_entries: Vec<RepoMetadataEntryUpdate>,
}

/// The whole file tree of a repository.
#[derive(Debug, PartialEq, Eq)]
pub struct RepoMetadataSnapshot {
    pub repo_path: String,
    pub entries: Vec<RepoMetadataEntryUpdate>,
}

/// What a directory of a repository holds.
#[derive(Debug, PartialEq, Eq)]
pub struct LoadRepoMetadataDirectoryResponse {
    pub repo_path: String,
    pub entries: Vec<RepoMetadataEntryUpdate>,
}

#[derive(Debug, PartialEq, Eq)]
pub struct ProjectSkillFilesQuery {
    pub provider_paths: Vec<String>,
}

#[derive(Debug, PartialEq, Eq)]
pub struct FilesNamedQuery {
    pub names: Vec<String>,
}

/// The variants of a [`RepoMetadataQuery`].
#[derive(Debug, PartialEq, Eq)]
pub enum Query {
    ProjectSkillFiles(ProjectSkillFilesQuery),
    FilesNamed(FilesNamedQuery),
}

/// A question about the contents of a repository.
#[derive(Debug, PartialEq, Eq)]
pub struct RepoMetadataQuery {
    pub query: Option<Query>,
}

/// How a query ended; a message carries the status as a number.
#[derive(Debug, Clone, Copy, PartialEq, Eq, Structural)]
pub enum RepoMetadataQueryStatus {
    Unspecified,
    Complete,
    BudgetExceeded,
}

/// A request to answer a [`RepoMetadataQuery`] for a repository.
#[derive(Debug, PartialEq, Eq)]
pub struct QueryRepoMetadataRequest {
    pub repo_path: String,
    pub query: RepoMetadataQuery,
    pub max_entries_scanned: u64,
}

/// The answer to a [`RepoMetadataQuery`].
#[derive(Debug, PartialEq, Eq)]
pub struct QueryRepoMetadataResponse {
    pub matches: Vec<RepoNodeMetadata>,
    pub status: i32,
    pub max_entries_scanned: u64,
}

/// A range of lines of a file.
#[derive(Debug, PartialEq, Eq)]
pub struct LineRange {
    pub start: u32,
    pub end: u32,
}

/// A file to read; without line ranges all of it.
#[derive(Debug, PartialEq, Eq)]
pub struct ReadFileContextFile {
    pub path: String,
    pub line_ranges: Vec<LineRange>,
}

/// A request to read files.
#[derive(Debug, PartialEq, Eq)]
pub struct ReadFileContextRequest {
    pub files: Vec<ReadFileContextFile>,
    pub max_file_bytes: Option<u32>,
    pub max_batch_bytes: Option<u32>,
}

/// The variants of what a [`FileContextProto`] holds.
#[derive(Debug, PartialEq, Eq)]
pub enum Content {
    TextContent(String),
    BinaryContent(Vec<u8>),
}

/// What was read of a file.
#[derive(Debug, PartialEq, Eq)]
pub struct FileContextProto {
    pub file_name: String,
    pub content: Option<Content>,
    pub line_range_start: Option<u32>,
    pub line_range_end: Option<u32>,
    pub last_modified_epoch_millis: Option<u64>,
    pub line_count: u32,
}

/// What a [`RepoNodeMetadata`] says.
#[verifier::ext_equal]
pub enum WireNode {
    Missing,
    Directory { path: Seq<char>, ignored: bool, loaded: bool },
    File { path: Seq<char>, extension: Option<Seq<char>>, ignored: bool },
}

/// What a [`RepoMetadataEntryUpdate`] says.
#[verifier::ext_equal]
pub struct WireEntry {
    pub parent: Seq<char>,
    pub nodes: Seq<WireNode>,
}

/// What a [`RepoMetadataUpdatePush`] says, or a message that removes nothing.
#[verifier::ext_equal]
pub struct WireUpdate {
    pub repo: Seq<char>,
    pub removed: Seq<Seq<char>>,
    pub entries: Seq<WireEntry>,
}

/// What a [`RepoMetadataQuery`] says.
#[verifier::ext_equal]
pub enum WireQuery {
    Missing,
    ProjectSkillFiles { provider_paths: Seq<Seq<char>> },
    FilesNamed { names: Seq<Seq<char>> },
}

/// What a [`QueryRepoMetadataResponse`] says.
#[verifier::ext_equal]
pub struct WireResponse {
    pub matches: Seq<WireNode>,
    pub status: i32,
    pub max_entries_scanned: u64,
}

impl View for RepoNodeMetadata {
    type V = WireNode;

    open spec fn view(&self) -> WireNode {
        match self.node {
            None => WireNode::Missing,
            Some(Node::Directory(directory)) => WireNode::Directory {
                path: directory.path@,
                ignored: directory.ignored,
                loaded: directory.loaded,
            },
            Some(Node::File(file)) => WireNode::File {
                path: file.path@,
                extension: node::optional_text(file.extension),
                ignored: file.ignored,
            },
        }
    }
}

/// What a sequence of nodes says.
pub open spec fn wire_nodes(nodes: Seq<RepoNodeMetadata>) -> Seq<WireNode> {
    nodes.map_values(|node: RepoNodeMetadata| node@)
}

impl View for RepoMetadataEntryUpdate {
    type V = WireEntry;

    open spec fn view(&self) -> WireEntry {
        WireEntry {
            parent: self.parent_path_to_replace@,
            nodes: wire_nodes(self.subtree_metadata@),
        }
    }
}

/// What a sequence of entry updates says.
pub open spec fn wire_entries(entries: Seq<RepoMetadataEntryUpdate>) -> Seq<WireEntry> {
    entries.map_values(|entry: RepoMetadataEntryUpdate| entry@)
}

impl View for RepoMetadataUpdatePush {
    type V = WireUpdate;

    open spec fn view(&self) -> WireUpdate {
        WireUpdate {
            repo: self.repo_path@,
            removed: text::texts(self.remove_entries@),
            entries: wire_entries(self.update_entries@),
        }
    }
}

impl View for RepoMetadataSnapshot {
    type V = WireUpdate;

    open spec fn view(&self) -> WireUpdate {
        WireUpdate {
            repo: self.repo_path@,
            removed: Seq::empty(),
            entries: wire_entries(self.entries@),
        }
    }
}

impl View for LoadRepoMetadataDirectoryResponse {
    type V = WireUpdate;

    open spec fn view(&self) -> WireUpdate {
        WireUpdate {
            repo: self.repo_path@,
            removed: Seq::empty(),
            entries: wire_entries(self.entries@),
        }
    }
}

impl View for RepoMetadataQuery {
    type V = WireQuery;

    open spec fn view(&self) -> WireQuery {
        match self.query {
            None => WireQuery::Missing,
            Some(Query::ProjectSkillFiles(query)) => WireQuery::ProjectSkillFiles {
                provider_paths: text::texts(query.provider_paths@),
            },
            Some(Query::FilesNamed(query)) => WireQuery::FilesNamed {
                names: text::texts(query.names@),
            },
        }
    }
}

/// What a [`FileContextProto`] says: the name of a file and, where it is text, what it holds.
#[verifier::ext_equal]
pub struct FileContextView {
    pub file_name: Seq<char>,
    pub text: Option<Seq<char>>,
}

impl View for FileContextProto {
    type V = FileContextView;

    open spec fn view(&self) -> FileContextView {
        FileContextView {
            file_name: self.file_name@,
            text: match self.content {
                Some(Content::TextContent(content)) => Some(content@),
                _ => None,
            },
        }
    }
}

/// What a sequence of file contexts says.
pub open spec fn context_views(contexts: Seq<FileContextProto>) -> Seq<FileContextView> {
    contexts.map_values(|context: FileContextProto| context@)
}

impl View for QueryRepoMetadataResponse {
    type V = WireResponse;

    open spec fn view(&self) -> WireResponse {
        WireResponse {
            matches: wire_nodes(self.matches@),
            status: self.status,
            max_entries_scanned: self.max_entries_scanned,
        }
    }
}

impl RepoMetadataQueryStatus {
    /// The number that stands for the status in a message.
    pub open spec fn spec_code(self) -> i32 {
        match self {
            RepoMetadataQueryStatus::Unspecified => 0,
            RepoMetadataQueryStatus::Complete => 1,
            RepoMetadataQueryStatus::BudgetExceeded => 2,
        }
    }

    /// The number that stands for the status in a message.
    pub fn code(self) -> (code: i32)
        ensures
            code == self.spec_code(),
    {
        match self {
            RepoMetadataQueryStatus::Unspecified => 0,
            RepoMetadataQueryStatus::Complete => 1,
            RepoMetadataQueryStatus::BudgetExceeded => 2,
        }
    }

    /// The status that a number stands for.
    pub fn from_code(code: i32) -> (status: Option<RepoMetadataQueryStatus>)
        ensures
            match status {
                Some(status) => status.spec_code() == code,
                None => forall|status: RepoMetadataQueryStatus| #[trigger]
                    status.spec_code() != code,
            },
    {
        if code == 0 {
            Some(RepoMetadataQueryStatus::Unspecified)
        } else if code == 1 {
            Some(RepoMetadataQueryStatus::Complete)
        } else if code == 2 {
            Some(RepoMetadataQueryStatus::BudgetExceeded)
        } else {
            None
        }
    }
}

/// What the message of a node says is what stands in its fields, one by one.
pub proof fn messages_keep_every_field(
    directory: DirectoryNodeMetadata,
    file: FileNodeMetadata,
)
    ensures
        ({
            let message = RepoNodeMetadata { node: Some(Node::Directory(directory)) };
            &&& message@ is Directory
            &&& message@->Directory_path == directory.path@
            &&& message@->Directory_ignored == directory.ignored
            &&& message@->Directory_loaded == directory.loaded
        }),
        ({
            let message = RepoNodeMetadata { node: Some(Node::File(file)) };
            &&& message@ is File
            &&& message@->File_path == file.path@
            &&& message@->File_ignored == file.ignored
            &&& file.extension is None ==> message@->File_extension is None
            &&& file.extension matches Some(text) ==> message@->File_extension == Some(text@)
        }),
        (RepoNodeMetadata { node: None })@ is Missing,
{
}

/// A file that was read is known by its name; what it holds counts where it is text, and nothing
/// else does.
pub proof fn only_text_counts_as_content(context: FileContextProto)
    ensures
        context@.file_name == context.file_name@,
        context.content matches Some(Content::TextContent(text)) ==> context@.text == Some(text@),
        context.content matches Some(Content::BinaryContent(_)) ==> context@.text is None,
        context.content is None ==> context@.text is None,
{
}

/// A number that was never set stands for no particular status, and no two statuses share one.
pub proof fn statuses_have_numbers_of_their_own(
    a: RepoMetadataQueryStatus,
    b: RepoMetadataQueryStatus,
)
    ensures
        a.spec_code() == 0 <==> a == RepoMetadataQueryStatus::Unspecified,
        a.spec_code() == b.spec_code() ==> a == b,
{
}

} // verus!
