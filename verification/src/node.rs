//! Files and directories as repository metadata describes them.

use vstd::prelude::*;

use crate::path::{PathView, StandardizedPath};

verus! {

/// What is known of one file or directory.
#[verifier::ext_equal]
pub enum NodeView {
    Directory { path: PathView, ignored: bool, loaded: bool },
    File { path: PathView, extension: Option<Seq<char>>, ignored: bool },
}

impl NodeView {
    pub open spec fn path(self) -> PathView {
        match self {
            NodeView::Directory { path, .. } => path,
            NodeView::File { path, .. } => path,
        }
    }

    pub open spec fn ignored(self) -> bool {
        match self {
            NodeView::Directory { ignored, .. } => ignored,
            NodeView::File { ignored, .. } => ignored,
        }
    }

    /// Whether the children of this node have been read; files have none to read.
    pub open spec fn loaded(self) -> bool {
        match self {
            NodeView::Directory { loaded, .. } => loaded,
            NodeView::File { .. } => true,
        }
    }

    pub open spec fn valid(self) -> bool {
        self.path().valid()
    }
}

/// Whether a directory counts as read is what is known of it, whether or not it is ignored; a file
/// always counts as read. Both are ignored, and are at the place, as they are known to be.
pub proof fn nodes_are_what_is_known_of_them(
    path: PathView,
    ignored: bool,
    loaded: bool,
    extension: Option<Seq<char>>,
)
    ensures
        ({
            let directory = NodeView::Directory { path, ignored, loaded };
            let file = NodeView::File { path, extension, ignored };
            &&& directory.loaded() == loaded
            &&& directory.ignored() == ignored
            &&& directory.path() == path
            &&& file.loaded()
            &&& file.ignored() == ignored
            &&& file.path() == path
        }),
{
}

/// The text of an optional string.
pub open spec fn optional_text(s: Option<String>) -> Option<Seq<char>> {
    match s {
        Some(s) => Some(s@),
        None => None,
    }
}

/// A directory of a repository.
#[derive(Debug, PartialEq, Eq)]
pub struct DirectoryNodeMetadata {
    pub path: StandardizedPath,
    pub ignored: bool,
    /// Whether the directory's children have been read.
    pub loaded: bool,
}

/// A file of a repository.
#[derive(Debug, PartialEq, Eq)]
pub struct FileNodeMetadata {
    pub path: StandardizedPath,
    pub extension: Option<String>,
    pub ignored: bool,
}

/// A file or directory inside a metadata update.
#[derive(Debug, PartialEq, Eq)]
pub enum RepoNodeMetadata {
    Directory(DirectoryNodeMetadata),
    File(FileNodeMetadata),
}

/// A file or directory that a tree holds.
#[derive(Debug, PartialEq, Eq)]
pub enum FileTreeEntryState {
    Directory(DirectoryNodeMetadata),
    File(FileNodeMetadata),
}

/// A file or directory that a query found.
#[derive(Debug, PartialEq, Eq)]
pub enum OwnedRepoContent {
    File { path: StandardizedPath, extension: Option<String>, ignored: bool },
    Directory { path: StandardizedPath, ignored: bool, loaded: bool },
}

/// A file or directory of a tree that a query found, still in the tree.
#[derive(Debug)]
pub enum RepoContent<'a> {
    File(&'a FileNodeMetadata),
    Directory(&'a DirectoryNodeMetadata),
}

impl<'a> View for RepoContent<'a> {
    type V = NodeView;

    open spec fn view(&self) -> NodeView {
        match self {
            RepoContent::File(file) => file@,
            RepoContent::Directory(directory) => directory@,
        }
    }
}

impl View for DirectoryNodeMetadata {
    type V = NodeView;

    open spec fn view(&self) -> NodeView {
        NodeView::Directory { path: self.path@, ignored: self.ignored, loaded: self.loaded }
    }
}

impl View for FileNodeMetadata {
    type V = NodeView;

    open spec fn view(&self) -> NodeView {
        NodeView::File {
            path: self.path@,
            extension: optional_text(self.extension),
            ignored: self.ignored,
        }
    }
}

impl View for RepoNodeMetadata {
    type V = NodeView;

    open spec fn view(&self) -> NodeView {
        match self {
            RepoNodeMetadata::Directory(directory) => directory@,
            RepoNodeMetadata::File(file) => file@,
        }
    }
}

impl View for FileTreeEntryState {
    type V = NodeView;

    open spec fn view(&self) -> NodeView {
        match self {
            FileTreeEntryState::Directory(directory) => directory@,
            FileTreeEntryState::File(file) => file@,
        }
    }
}

impl View for OwnedRepoContent {
    type V = NodeView;

    open spec fn view(&self) -> NodeView {
        match self {
            OwnedRepoContent::File { path, extension, ignored } => NodeView::File {
                path: path@,
                extension: optional_text(*extension),
                ignored: *ignored,
            },
            OwnedRepoContent::Directory { path, ignored, loaded } => NodeView::Directory {
                path: path@,
                ignored: *ignored,
                loaded: *loaded,
            },
        }
    }
}

/// The nodes that a sequence of query results describes.
pub open spec fn content_views(contents: Seq<OwnedRepoContent>) -> Seq<NodeView> {
    contents.map_values(|content: OwnedRepoContent| content@)
}

/// The nodes that a sequence of borrowed query results describes.
pub open spec fn borrowed_views<'a>(contents: Seq<RepoContent<'a>>) -> Seq<NodeView> {
    contents.map_values(|content: RepoContent<'a>| content@)
}

/// What a node of a message or a tree says is what stands in its fields, one by one.
pub proof fn views_keep_every_field(
    directory: DirectoryNodeMetadata,
    file: FileNodeMetadata,
    path: StandardizedPath,
    extension: Option<String>,
    ignored: bool,
    loaded: bool,
)
    ensures
        directory@ is Directory,
        directory@->Directory_path == directory.path@,
        directory@->Directory_ignored == directory.ignored,
        directory@->Directory_loaded == directory.loaded,
        file@ is File,
        file@->File_path == file.path@,
        file@->File_ignored == file.ignored,
        file.extension is None ==> file@->File_extension is None,
        file.extension matches Some(text) ==> file@->File_extension == Some(text@),
        RepoNodeMetadata::Directory(directory)@ == directory@,
        RepoNodeMetadata::File(file)@ == file@,
        FileTreeEntryState::Directory(directory)@ == directory@,
        FileTreeEntryState::File(file)@ == file@,
        (OwnedRepoContent::Directory { path, ignored, loaded })@ == (DirectoryNodeMetadata {
            path,
            ignored,
            loaded,
        })@,
        (OwnedRepoContent::File { path, extension, ignored })@ == (FileNodeMetadata {
            path,
            extension,
            ignored,
        })@,
{
}

impl Clone for DirectoryNodeMetadata {
    fn clone(&self) -> (directory: Self)
        ensures
            directory@ == self@,
    {
        DirectoryNodeMetadata {
            path: self.path.clone(),
            ignored: self.ignored,
            loaded: self.loaded,
        }
    }
}

impl Clone for FileNodeMetadata {
    fn clone(&self) -> (file: Self)
        ensures
            file@ == self@,
    {
        FileNodeMetadata {
            path: self.path.clone(),
            extension: self.extension.clone(),
            ignored: self.ignored,
        }
    }
}

impl Clone for RepoNodeMetadata {
    fn clone(&self) -> (node: Self)
        ensures
            node@ == self@,
    {
        match self {
            RepoNodeMetadata::Directory(directory) => RepoNodeMetadata::Directory(
                directory.clone(),
            ),
            RepoNodeMetadata::File(file) => RepoNodeMetadata::File(file.clone()),
        }
    }
}

impl Clone for OwnedRepoContent {
    fn clone(&self) -> (content: Self)
        ensures
            content@ == self@,
    {
        match self {
            OwnedRepoContent::File { path, extension, ignored } => OwnedRepoContent::File {
                path: path.clone(),
                extension: extension.clone(),
                ignored: *ignored,
            },
            OwnedRepoContent::Directory { path, ignored, loaded } => OwnedRepoContent::Directory {
                path: path.clone(),
                ignored: *ignored,
                loaded: *loaded,
            },
        }
    }
}

impl FileTreeEntryState {
    /// The path of the node.
    pub fn path(&self) -> (path: &StandardizedPath)
        ensures
            path@ == self@.path(),
    {
        match self {
            FileTreeEntryState::Directory(directory) => &directory.path,
            FileTreeEntryState::File(file) => &file.path,
        }
    }

    /// The node as a query result.
    pub fn as_content(&self) -> (content: RepoContent<'_>)
        ensures
            content@ == self@,
    {
        match self {
            FileTreeEntryState::Directory(directory) => RepoContent::Directory(directory),
            FileTreeEntryState::File(file) => RepoContent::File(file),
        }
    }
}

impl RepoNodeMetadata {
    /// The path of the node.
    pub fn path(&self) -> (path: &StandardizedPath)
        ensures
            path@ == self@.path(),
    {
        match self {
            RepoNodeMetadata::Directory(directory) => &directory.path,
            RepoNodeMetadata::File(file) => &file.path,
        }
    }

    /// The node as a tree holds it.
    pub fn to_state(&self) -> (state: FileTreeEntryState)
        ensures
            state@ == self@,
            match (*self, state) {
                (RepoNodeMetadata::Directory(from), FileTreeEntryState::Directory(to)) => {
                    &&& to.path@ == from.path@
                    &&& to.ignored == from.ignored
                    &&& to.loaded == from.loaded
                },
                (RepoNodeMetadata::File(from), FileTreeEntryState::File(to)) => {
                    &&& to.path@ == from.path@
                    &&& to.ignored == from.ignored
                },
                _ => false,
            },
    {
        match self {
            RepoNodeMetadata::Directory(directory) => FileTreeEntryState::Directory(
                directory.clone(),
            ),
            RepoNodeMetadata::File(file) => FileTreeEntryState::File(file.clone()),
        }
    }
}

impl<'a> RepoContent<'a> {
    /// The result, no longer tied to the tree.
    pub fn to_owned(&self) -> (content: OwnedRepoContent)
        ensures
            content@ == self@,
            match (*self, content) {
                (
                    RepoContent::Directory(from),
                    OwnedRepoContent::Directory { path, ignored, loaded },
                ) => path@ == from.path@ && ignored == from.ignored && loaded == from.loaded,
                (RepoContent::File(from), OwnedRepoContent::File { path, extension: _, ignored }) => {
                    path@ == from.path@ && ignored == from.ignored
                },
                _ => false,
            },
    {
        match self {
            RepoContent::Directory(directory) => OwnedRepoContent::Directory {
                path: directory.path.clone(),
                ignored: directory.ignored,
                loaded: directory.loaded,
            },
            RepoContent::File(file) => OwnedRepoContent::File {
                path: file.path.clone(),
                extension: file.extension.clone(),
                ignored: file.ignored,
            },
        }
    }
}

} // verus!
