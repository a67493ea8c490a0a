//! Changes to the file tree of a repository.

use vstd::prelude::*;

use crate::node::{NodeView, RepoNodeMetadata};
use crate::path::{PathView, StandardizedPath};
use crate::tree;

verus! {

/// The children that a directory is to have from now on.
#[derive(Debug, PartialEq, Eq)]
pub struct FileTreeEntryUpdate {
    pub parent_path_to_replace: StandardizedPath,
    pub subtree_metadata: Vec<RepoNodeMetadata>,
}

/// A change to the file tree of a repository: what goes, and which listings are replaced.
#[derive(Debug, PartialEq, Eq)]
pub struct RepoMetadataUpdate {
    pub repo_path: StandardizedPath,
    pub remove_entries: Vec<StandardizedPath>,
    pub update_entries: Vec<FileTreeEntryUpdate>,
}

/// How a tree entry was updated.
#[derive(Debug, PartialEq, Eq)]
pub enum MetadataUpdateType {
    /// By exactly this change.
    Incremental(RepoMetadataUpdate),
    /// The entry was replaced, and what changed in it is not known.
    Replaced,
}

/// What a [`FileTreeEntryUpdate`] stands for.
#[verifier::ext_equal]
pub struct EntryView {
    pub parent: PathView,
    pub nodes: Seq<NodeView>,
}

/// What a [`RepoMetadataUpdate`] stands for.
#[verifier::ext_equal]
pub struct UpdateView {
    pub repo: PathView,
    pub removed: Seq<PathView>,
    pub entries: Seq<EntryView>,
}

/// What a [`MetadataUpdateType`] stands for.
#[verifier::ext_equal]
pub enum UpdateTypeView {
    Incremental(UpdateView),
    Replaced,
}

/// The nodes of a sequence.
pub open spec fn node_views(nodes: Seq<RepoNodeMetadata>) -> Seq<NodeView> {
    nodes.map_values(|node: RepoNodeMetadata| node@)
}

impl View for FileTreeEntryUpdate {
    type V = EntryView;

    open spec fn view(&self) -> EntryView {
        EntryView {
            parent: self.parent_path_to_replace@,
            nodes: node_views(self.subtree_metadata@),
        }
    }
}

/// The entry updates of a sequence.
pub open spec fn entry_views(entries: Seq<FileTreeEntryUpdate>) -> Seq<EntryView> {
    entries.map_values(|entry: FileTreeEntryUpdate| entry@)
}

impl View for RepoMetadataUpdate {
    type V = UpdateView;

    open spec fn view(&self) -> UpdateView {
        UpdateView {
            repo: self.repo_path@,
            removed: tree::path_views(self.remove_entries@),
            entries: entry_views(self.update_entries@),
        }
    }
}

impl View for MetadataUpdateType {
    type V = UpdateTypeView;

    open spec fn view(&self) -> UpdateTypeView {
        match self {
            MetadataUpdateType::Incremental(update) => UpdateTypeView::Incremental(update@),
            MetadataUpdateType::Replaced => UpdateTypeView::Replaced,
        }
    }
}

impl EntryView {
    /// Whether every path of the update is one that a repository can hold.
    pub open spec fn valid(self) -> bool {
        &&& self.parent.valid()
        &&& forall|i: int| 0 <= i < self.nodes.len() ==> (#[trigger] self.nodes[i]).valid()
    }
}

impl UpdateView {
    /// Whether every path of the update is one that a repository can hold.
    pub open spec fn valid(self) -> bool {
        &&& self.repo.valid()
        &&& forall|i: int| 0 <= i < self.removed.len() ==> (#[trigger] self.removed[i]).valid()
        &&& forall|i: int| 0 <= i < self.entries.len() ==> (#[trigger] self.entries[i]).valid()
    }
}

/// A change says what stands in its fields: which directory is to have which children, what goes,
/// and in which repository, each in its order; and a change that is known exactly is told apart
/// from one that is not.
pub proof fn changes_keep_every_field(
    entry: FileTreeEntryUpdate,
    update: RepoMetadataUpdate,
    i: int,
)
    ensures
        entry@.parent == entry.parent_path_to_replace@,
        entry@.nodes.len() == entry.subtree_metadata@.len(),
        0 <= i < entry.subtree_metadata@.len() ==> entry@.nodes[i] == entry.subtree_metadata@[i]@,
        update@.repo == update.repo_path@,
        update@.removed.len() == update.remove_entries@.len(),
        0 <= i < update.remove_entries@.len() ==> update@.removed[i] == update.remove_entries@[i]@,
        update@.entries.len() == update.update_entries@.len(),
        0 <= i < update.update_entries@.len() ==> update@.entries[i] == update.update_entries@[i]@,
        MetadataUpdateType::Incremental(update)@ matches UpdateTypeView::Incremental(known)
            && known == update@,
        MetadataUpdateType::Replaced@ is Replaced,
{
}

impl Clone for FileTreeEntryUpdate {
    fn clone(&self) -> (update: Self)
        ensures
            update@ == self@,
    {
        let nodes: Vec<RepoNodeMetadata> = self.subtree_metadata.clone();
        assert(node_views(nodes@) =~= node_views(self.subtree_metadata@));
        FileTreeEntryUpdate {
            parent_path_to_replace: self.parent_path_to_replace.clone(),
            subtree_metadata: nodes,
        }
    }
}

impl Clone for RepoMetadataUpdate {
    fn clone(&self) -> (update: Self)
        ensures
            update@ == self@,
    {
        let removed: Vec<StandardizedPath> = self.remove_entries.clone();
        let entries: Vec<FileTreeEntryUpdate> = self.update_entries.clone();
        proof {
            assert(tree::path_views(removed@) =~= tree::path_views(self.remove_entries@));
            assert(entry_views(entries@) =~= entry_views(self.update_entries@));
        }
        RepoMetadataUpdate {
            repo_path: self.repo_path.clone(),
            remove_entries: removed,
            update_entries: entries,
        }
    }
}

impl Clone for MetadataUpdateType {
    fn clone(&self) -> (update_type: Self)
        ensures
            update_type@ == self@,
    {
        match self {
            MetadataUpdateType::Incremental(update) => MetadataUpdateType::Incremental(
                update.clone(),
            ),
            MetadataUpdateType::Replaced => MetadataUpdateType::Replaced,
        }
    }
}

} // verus!
