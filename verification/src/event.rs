//! What is reported when repository metadata changes.

use vstd::prelude::*;

use crate::identifier::{
    HostPathView, RemoteRepositoryIdentifier, RepositoryIdentifier, RepositoryView,
};
use crate::path::{PathView, StandardizedPath};
use crate::tree;
use crate::update::{MetadataUpdateType, RepoMetadataUpdate, UpdateTypeView, UpdateView};

verus! {

/// Reports about local repositories.
#[derive(Debug)]
pub enum RepositoryMetadataEvent {
    RepositoryUpdated { path: StandardizedPath },
    RepositoryRemoved { path: StandardizedPath },
    FileTreeUpdated { paths: Vec<StandardizedPath> },
    FileTreeEntryUpdated { path: StandardizedPath, update_type: MetadataUpdateType },
    UpdatingRepositoryFailed { path: StandardizedPath },
    IncrementalUpdateReady { update: RepoMetadataUpdate },
}

/// Reports about repositories on other hosts.
#[derive(Debug)]
pub enum RemoteRepositoryMetadataEvent {
    RepositoryUpdated { id: RemoteRepositoryIdentifier },
    RepositoryRemoved { id: RemoteRepositoryIdentifier },
    FileTreeUpdated { ids: Vec<RemoteRepositoryIdentifier> },
    FileTreeEntryUpdated { id: RemoteRepositoryIdentifier, update_type: MetadataUpdateType },
}

/// Reports about repositories wherever they are.
#[derive(Debug)]
pub enum RepoMetadataEvent {
    /// A repository was added or updated.
    RepositoryUpdated { id: RepositoryIdentifier },
    /// A repository was removed.
    RepositoryRemoved { id: RepositoryIdentifier },
    /// File trees for repositories were updated.
    FileTreeUpdated { ids: Vec<RepositoryIdentifier> },
    /// A file tree entry was updated.
    FileTreeEntryUpdated {
        id: RepositoryIdentifier,
        /// Whether the event holds a precise change or calls for a conservative refresh because
        /// the entry was replaced without one.
        update_type: MetadataUpdateType,
    },
    /// Updating a repository failed.
    UpdatingRepositoryFailed { id: RepositoryIdentifier },
    /// A change of a local file tree is ready to be sent to a remote client. Only reported where
    /// incremental updates were asked for.
    IncrementalUpdateReady { update: RepoMetadataUpdate },
}

/// What an event says of repositories named by `I`.
#[verifier::ext_equal]
pub enum EventView<I> {
    RepositoryUpdated { id: I },
    RepositoryRemoved { id: I },
    FileTreeUpdated { ids: Seq<I> },
    FileTreeEntryUpdated { id: I, update_type: UpdateTypeView },
    UpdatingRepositoryFailed { id: I },
    IncrementalUpdateReady { update: UpdateView },
}

impl<I> EventView<I> {
    /// The same event, with the repositories named by what `f` calls them.
    pub open spec fn renamed<J>(self, f: spec_fn(I) -> J) -> EventView<J> {
        match self {
            EventView::RepositoryUpdated { id } => EventView::RepositoryUpdated { id: f(id) },
            EventView::RepositoryRemoved { id } => EventView::RepositoryRemoved { id: f(id) },
            EventView::FileTreeUpdated { ids } => EventView::FileTreeUpdated {
                ids: ids.map_values(f),
            },
            EventView::FileTreeEntryUpdated { id, update_type } => {
                EventView::FileTreeEntryUpdated { id: f(id), update_type }
            },
            EventView::UpdatingRepositoryFailed { id } => EventView::UpdatingRepositoryFailed {
                id: f(id),
            },
            EventView::IncrementalUpdateReady { update } => EventView::IncrementalUpdateReady {
                update,
            },
        }
    }
}

/// Renaming the repositories of an event keeps what the event says: it names each repository by
/// its new name, in the order they were in, and carries the change or the update that it carried.
pub proof fn renamed_events_say_the_same<I, J>(
    id: I,
    ids: Seq<I>,
    update_type: UpdateTypeView,
    update: UpdateView,
    f: spec_fn(I) -> J,
    i: int,
)
    ensures
        (EventView::RepositoryUpdated { id }).renamed(f) matches EventView::RepositoryUpdated {
            id: renamed,
        } && renamed == f(id),
        (EventView::RepositoryRemoved { id }).renamed(f) matches EventView::RepositoryRemoved {
            id: renamed,
        } && renamed == f(id),
        (EventView::UpdatingRepositoryFailed { id }).renamed(f) matches
            EventView::UpdatingRepositoryFailed { id: renamed } && renamed == f(id),
        (EventView::FileTreeEntryUpdated { id, update_type }).renamed(f) matches
            EventView::FileTreeEntryUpdated { id: renamed, update_type: kept } && renamed == f(id)
            && kept == update_type,
        (EventView::FileTreeUpdated { ids }).renamed(f) matches EventView::FileTreeUpdated {
            ids: renamed,
        } && renamed.len() == ids.len() && (0 <= i < ids.len() ==> renamed[i] == f(ids[i])),
        (EventView::<I>::IncrementalUpdateReady { update }).renamed(f) matches
            EventView::IncrementalUpdateReady { update: kept } && kept == update,
{
}

/// The repositories of a sequence of remote identifiers.
pub open spec fn remote_views(ids: Seq<RemoteRepositoryIdentifier>) -> Seq<HostPathView> {
    ids.map_values(|id: RemoteRepositoryIdentifier| id@)
}

/// The repositories of a sequence of identifiers.
pub open spec fn repository_views(ids: Seq<RepositoryIdentifier>) -> Seq<RepositoryView> {
    ids.map_values(|id: RepositoryIdentifier| id@)
}

impl View for RepositoryMetadataEvent {
    type V = EventView<PathView>;

    open spec fn view(&self) -> EventView<PathView> {
        match self {
            RepositoryMetadataEvent::RepositoryUpdated { path } => {
                EventView::RepositoryUpdated { id: path@ }
            },
            RepositoryMetadataEvent::RepositoryRemoved { path } => {
                EventView::RepositoryRemoved { id: path@ }
            },
            RepositoryMetadataEvent::FileTreeUpdated { paths } => {
                EventView::FileTreeUpdated { ids: tree::path_views(paths@) }
            },
            RepositoryMetadataEvent::FileTreeEntryUpdated { path, update_type } => {
                EventView::FileTreeEntryUpdated { id: path@, update_type: update_type@ }
            },
            RepositoryMetadataEvent::UpdatingRepositoryFailed { path } => {
                EventView::UpdatingRepositoryFailed { id: path@ }
            },
            RepositoryMetadataEvent::IncrementalUpdateReady { update } => {
                EventView::IncrementalUpdateReady { update: update@ }
            },
        }
    }
}

impl View for RemoteRepositoryMetadataEvent {
    type V = EventView<HostPathView>;

    open spec fn view(&self) -> EventView<HostPathView> {
        match self {
            RemoteRepositoryMetadataEvent::RepositoryUpdated { id } => {
                EventView::RepositoryUpdated { id: id@ }
            },
            RemoteRepositoryMetadataEvent::RepositoryRemoved { id } => {
                EventView::RepositoryRemoved { id: id@ }
            },
            RemoteRepositoryMetadataEvent::FileTreeUpdated { ids } => {
                EventView::FileTreeUpdated { ids: remote_views(ids@) }
            },
            RemoteRepositoryMetadataEvent::FileTreeEntryUpdated { id, update_type } => {
                EventView::FileTreeEntryUpdated { id: id@, update_type: update_type@ }
            },
        }
    }
}

impl View for RepoMetadataEvent {
    type V = EventView<RepositoryView>;

    open spec fn view(&self) -> EventView<RepositoryView> {
        match self {
            RepoMetadataEvent::RepositoryUpdated { id } => EventView::RepositoryUpdated { id: id@ },
            RepoMetadataEvent::RepositoryRemoved { id } => EventView::RepositoryRemoved { id: id@ },
            RepoMetadataEvent::FileTreeUpdated { ids } => {
                EventView::FileTreeUpdated { ids: repository_views(ids@) }
            },
            RepoMetadataEvent::FileTreeEntryUpdated { id, update_type } => {
                EventView::FileTreeEntryUpdated { id: id@, update_type: update_type@ }
            },
            RepoMetadataEvent::UpdatingRepositoryFailed { id } => {
                EventView::UpdatingRepositoryFailed { id: id@ }
            },
            RepoMetadataEvent::IncrementalUpdateReady { update } => {
                EventView::IncrementalUpdateReady { update: update@ }
            },
        }
    }
}

/// The events of a sequence.
pub open spec fn event_views(events: Seq<RepoMetadataEvent>) -> Seq<EventView<RepositoryView>> {
    events.map_values(|event: RepoMetadataEvent| event@)
}

/// A report says what stands in its fields, of the repository that it names.
pub proof fn reports_keep_every_field(
    id: RepositoryIdentifier,
    ids: Vec<RepositoryIdentifier>,
    update_type: MetadataUpdateType,
    update: RepoMetadataUpdate,
    i: int,
)
    ensures
        (RepoMetadataEvent::RepositoryUpdated { id })@ matches EventView::RepositoryUpdated {
            id: named,
        } && named == id@,
        (RepoMetadataEvent::RepositoryRemoved { id })@ matches EventView::RepositoryRemoved {
            id: named,
        } && named == id@,
        (RepoMetadataEvent::UpdatingRepositoryFailed { id })@ matches
            EventView::UpdatingRepositoryFailed { id: named } && named == id@,
        (RepoMetadataEvent::FileTreeEntryUpdated { id, update_type })@ matches
            EventView::FileTreeEntryUpdated { id: named, update_type: kept } && named == id@
            && kept == update_type@,
        (RepoMetadataEvent::FileTreeUpdated { ids })@ matches EventView::FileTreeUpdated {
            ids: named,
        } && named.len() == ids@.len() && (0 <= i < ids@.len() ==> named[i] == ids@[i]@),
        (RepoMetadataEvent::IncrementalUpdateReady { update })@ matches
            EventView::IncrementalUpdateReady { update: kept } && kept == update@,
{
}

/// A report about a local repository says what stands in its fields, of the path that it names.
pub proof fn local_reports_keep_every_field(
    path: StandardizedPath,
    paths: Vec<StandardizedPath>,
    update_type: MetadataUpdateType,
    update: RepoMetadataUpdate,
    i: int,
)
    ensures
        (RepositoryMetadataEvent::RepositoryUpdated { path })@ matches
            EventView::RepositoryUpdated { id: named } && named == path@,
        (RepositoryMetadataEvent::RepositoryRemoved { path })@ matches
            EventView::RepositoryRemoved { id: named } && named == path@,
        (RepositoryMetadataEvent::UpdatingRepositoryFailed { path })@ matches
            EventView::UpdatingRepositoryFailed { id: named } && named == path@,
        (RepositoryMetadataEvent::FileTreeEntryUpdated { path, update_type })@ matches
            EventView::FileTreeEntryUpdated { id: named, update_type: kept } && named == path@
            && kept == update_type@,
        (RepositoryMetadataEvent::FileTreeUpdated { paths })@ matches EventView::FileTreeUpdated {
            ids: named,
        } && named.len() == paths@.len() && (0 <= i < paths@.len() ==> named[i] == paths@[i]@),
        (RepositoryMetadataEvent::IncrementalUpdateReady { update })@ matches
            EventView::IncrementalUpdateReady { update: kept } && kept == update@,
{
}

/// A report about a repository on another host says what stands in its fields, of the repository
/// that it names.
pub proof fn remote_reports_keep_every_field(
    id: RemoteRepositoryIdentifier,
    ids: Vec<RemoteRepositoryIdentifier>,
    update_type: MetadataUpdateType,
    i: int,
)
    ensures
        (RemoteRepositoryMetadataEvent::RepositoryUpdated { id })@ matches
            EventView::RepositoryUpdated { id: named } && named == id@,
        (RemoteRepositoryMetadataEvent::RepositoryRemoved { id })@ matches
            EventView::RepositoryRemoved { id: named } && named == id@,
        (RemoteRepositoryMetadataEvent::FileTreeEntryUpdated { id, update_type })@ matches
            EventView::FileTreeEntryUpdated { id: named, update_type: kept } && named == id@
            && kept == update_type@,
        (RemoteRepositoryMetadataEvent::FileTreeUpdated { ids })@ matches
            EventView::FileTreeUpdated { ids: named } && named.len() == ids@.len() && (0 <= i
            < ids@.len() ==> named[i] == ids@[i]@),
{
}

} // verus!
