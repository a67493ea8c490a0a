//! One entry point for metadata of local and remote repositories.
//!
//! [`RepoMetadataModel`] keeps what is known of each repository and dispatches by
//! [`RepositoryIdentifier`], so that whoever asks need not care where a repository is.

use vstd::prelude::*;

use crate::event::{
    EventView, RemoteRepositoryMetadataEvent, RepoMetadataEvent, RepositoryMetadataEvent,
};
use crate::event;
use crate::identifier::{
    HostId, HostPathView, RemoteRepositoryIdentifier, RepositoryIdentifier, RepositoryView,
};
use crate::listing;
use crate::node::{NodeView, OwnedRepoContent, RepoContent};
use crate::node;
use crate::path::{PathEncoding, PathView, StandardizedPath};
use crate::path;
use crate::query::{
    get_loaded_query_args, ArgsView, GetContentsArgs, QueryErrorView, QueryView,
    RepoContentsQueryBudget, RepoContentsQueryError, RepoMetadataQuery,
};
use crate::query;
use crate::scan::{WalkEntryKind, WalkEntryView};
use crate::scan;
use crate::sequence;
use crate::table::Table;
use crate::table;
use crate::text;
use crate::tree::{tree_is_fully_loaded, FileTreeEntry, TreeView};
use crate::tree;
use crate::update::{MetadataUpdateType, RepoMetadataUpdate, UpdateTypeView, UpdateView};

verus! {

/// How many nodes of a loaded tree are returned at most.
pub const MAX_REPO_CONTENTS_RESULTS: usize = 100;

/// What can go wrong with the metadata of a repository.
#[derive(Debug, PartialEq, Eq)]
pub enum RepoMetadataError {
    RepositoryNotFound,
    ResultSizeExceeded { limit: usize },
    IndexingFailed { message: String },
}

/// What a [`RepoMetadataError`] reports.
#[verifier::ext_equal]
pub enum MetadataErrorView {
    RepositoryNotFound,
    ResultSizeExceeded { limit: usize },
    IndexingFailed { message: Seq<char> },
}

impl View for RepoMetadataError {
    type V = MetadataErrorView;

    open spec fn view(&self) -> MetadataErrorView {
        match self {
            RepoMetadataError::RepositoryNotFound => MetadataErrorView::RepositoryNotFound,
            RepoMetadataError::ResultSizeExceeded { limit } => {
                MetadataErrorView::ResultSizeExceeded { limit: *limit }
            },
            RepoMetadataError::IndexingFailed { message } => {
                MetadataErrorView::IndexingFailed { message: message@ }
            },
        }
    }
}

impl MetadataErrorView {
    /// The error in words.
    pub open spec fn text(self) -> Seq<char> {
        match self {
            MetadataErrorView::RepositoryNotFound => "Repository not found"@,
            MetadataErrorView::ResultSizeExceeded { limit } => {
                "Result size exceeded maximum limit of "@ + text::decimal(limit as nat)
            },
            MetadataErrorView::IndexingFailed { message } => message,
        }
    }
}

impl RepoMetadataError {
    /// The error in words.
    pub fn message(&self) -> (message: String)
        ensures
            message@ == self@.text(),
    {
        match self {
            RepoMetadataError::RepositoryNotFound => "Repository not found".to_owned(),
            RepoMetadataError::ResultSizeExceeded { limit } => {
                let mut message: String = "Result size exceeded maximum limit of ".to_owned();
                message.append(text::decimal_text(*limit).as_str());
                message
            },
            RepoMetadataError::IndexingFailed { message } => message.clone(),
        }
    }
}

/// The file tree of an indexed repository.
#[derive(Debug)]
pub struct FileTreeState {
    pub entry: FileTreeEntry,
}

impl FileTreeState {
    pub fn new(entry: FileTreeEntry) -> (state: FileTreeState)
        ensures
            state.entry@ == entry@,
    {
        FileTreeState { entry }
    }
}

/// How far the indexing of a repository has come.
#[derive(Debug)]
pub enum IndexedRepoState {
    Indexed(FileTreeState),
    Pending,
    Failed(RepoMetadataError),
}

/// What an [`IndexedRepoState`] stands for.
#[verifier::ext_equal]
pub enum RepoStateView {
    Indexed(TreeView),
    Pending,
    Failed(MetadataErrorView),
}

impl View for IndexedRepoState {
    type V = RepoStateView;

    open spec fn view(&self) -> RepoStateView {
        match self {
            IndexedRepoState::Indexed(state) => RepoStateView::Indexed(state.entry@),
            IndexedRepoState::Pending => RepoStateView::Pending,
            IndexedRepoState::Failed(error) => RepoStateView::Failed(error@),
        }
    }
}

/// What a [`RepoMetadataModel`] knows.
#[verifier::ext_equal]
pub struct ModelView {
    pub local: Map<PathView, RepoStateView>,
    pub remote: Map<HostPathView, RepoStateView>,
    /// Whether changes of local trees are reported for sending.
    pub emits_incremental_updates: bool,
}

/// What is to be done to answer a query.
#[verifier::ext_equal]
pub enum PlanView {
    Ready(Result<Seq<NodeView>, QueryErrorView>),
    ScanLocal { repo_root: PathView, query: QueryView, budget: RepoContentsQueryBudget },
    AskRemote { id: HostPathView, query: QueryView, budget: RepoContentsQueryBudget },
}

/// The nodes of a tree that are asked for; an error where there are too many.
pub open spec fn loaded_contents(tree: TreeView, args: ArgsView) -> Result<
    Seq<NodeView>,
    MetadataErrorView,
> {
    let selected = tree.nodes().filter(|node: NodeView| args.selects(node));
    if selected.len() > MAX_REPO_CONTENTS_RESULTS {
        Err(MetadataErrorView::ResultSizeExceeded { limit: MAX_REPO_CONTENTS_RESULTS })
    } else {
        Ok(selected)
    }
}

/// Of two directories that a path lies in, one lies in the other.
proof fn lemma_roots_of_a_path_are_nested(path: PathView, a: PathView, b: PathView)
    requires
        path::lies_in(path, a),
        path::lies_in(path, b),
        !a.strictly_below(b),
    ensures
        a.components.len() <= b.components.len(),
{
    if a.components.len() > b.components.len() {
        assert(a.components =~= path.components.take(a.components.len() as int));
        assert(b.components =~= path.components.take(b.components.len() as int));
        assert(a.components.take(b.components.len() as int) =~= b.components);
    }
}

impl ModelView {
    /// How far the indexing of a repository has come; `None` for one that is not tracked.
    pub open spec fn state(self, id: RepositoryView) -> Option<RepoStateView> {
        match id {
            RepositoryView::Local(path) => if self.local.contains_key(path) {
                Some(self.local[path])
            } else {
                None
            },
            RepositoryView::Remote(id) => if self.remote.contains_key(id) {
                Some(self.remote[id])
            } else {
                None
            },
        }
    }

    /// The file tree of a repository, where it is indexed.
    pub open spec fn tree(self, id: RepositoryView) -> Option<TreeView> {
        match self.state(id) {
            Some(RepoStateView::Indexed(tree)) => Some(tree),
            _ => None,
        }
    }

    /// Whether `root` is the local repository that a path lies in, and no repository inside of it
    /// is.
    pub open spec fn is_innermost_root(self, root: PathView, path: PathView) -> bool {
        &&& self.local.contains_key(root)
        &&& path::lies_in(path, root)
        &&& forall|other: PathView| #[trigger]
            self.local.contains_key(other) && path::lies_in(path, other) ==> other.components.len()
                <= root.components.len()
    }

    /// Whether `ids` holds every repository that is tracked, each once, the local ones before the
    /// remote ones.
    pub open spec fn is_roster(self, ids: Seq<RepositoryView>) -> bool {
        &&& ids.no_duplicates()
        &&& forall|id: RepositoryView|
            #![trigger ids.contains(id)]
            ids.contains(id) <==> self.state(id) is Some
        &&& forall|i: int, j: int|
            0 <= i < j < ids.len() && #[trigger] ids[j] is Local ==> #[trigger] ids[i] is Local
    }

    /// The model in which a repository is at `state`.
    pub open spec fn with_state(self, id: RepositoryView, state: RepoStateView) -> ModelView {
        match id {
            RepositoryView::Local(path) => ModelView {
                local: self.local.insert(path, state),
                ..self
            },
            RepositoryView::Remote(id) => ModelView {
                remote: self.remote.insert(id, state),
                ..self
            },
        }
    }

    /// The model that does not track a repository.
    pub open spec fn without(self, id: RepositoryView) -> ModelView {
        match id {
            RepositoryView::Local(path) => ModelView { local: self.local.remove(path), ..self },
            RepositoryView::Remote(id) => ModelView { remote: self.remote.remove(id), ..self },
        }
    }

    /// The model that tracks nothing on a host.
    pub open spec fn without_host(self, host: Seq<char>) -> ModelView {
        ModelView {
            remote: self.remote.restrict(
                self.remote.dom().filter(|id: HostPathView| id.host != host),
            ),
            ..self
        }
    }

    /// The model after a directory-load response of a host: the directories that the update lists
    /// are loaded in the tree of its repository, where that is indexed.
    pub open spec fn with_loaded_directories(
        self,
        host: Seq<char>,
        update: UpdateView,
    ) -> ModelView {
        let id = RepositoryView::Remote(HostPathView { host, path: update.repo });
        match self.tree(id) {
            Some(tree) => self.with_state(
                id,
                RepoStateView::Indexed(tree.with_loaded_directories(update.entries)),
            ),
            None => self,
        }
    }

    /// Why a repository cannot be removed, where it cannot.
    pub open spec fn removal_error(self, id: RepositoryView) -> Option<MetadataErrorView> {
        if id is Local && self.state(id) is None {
            Some(MetadataErrorView::RepositoryNotFound)
        } else {
            None
        }
    }

    /// Whether `events` report exactly the repositories that `next` no longer tracks as removed,
    /// each once.
    pub open spec fn reports_removals(
        self,
        next: ModelView,
        events: Seq<EventView<RepositoryView>>,
    ) -> bool {
        &&& events.no_duplicates()
        &&& forall|event: EventView<RepositoryView>| #[trigger]
            events.contains(event) <==> {
                &&& event matches EventView::RepositoryRemoved { id }
                &&& self.state(id) is Some
                &&& next.state(id) is None
            }
    }

    /// What the loaded part of a repository answers to a query.
    pub open spec fn loaded_answer(self, id: RepositoryView, query: QueryView) -> Result<
        Seq<NodeView>,
        QueryErrorView,
    > {
        match self.state(id) {
            Some(RepoStateView::Indexed(tree)) => match loaded_contents(
                tree,
                query::loaded_query_args(query),
            ) {
                Ok(contents) => Ok(contents),
                Err(error) => Err(QueryErrorView::QueryFailed { message: error.text() }),
            },
            Some(RepoStateView::Pending) => Err(QueryErrorView::RepositoryPending(id)),
            Some(RepoStateView::Failed(error)) => Err(
                QueryErrorView::RepositoryIndexingFailed { id, message: error.text() },
            ),
            None => Err(QueryErrorView::RepositoryNotFound(id)),
        }
    }

    /// Whether the loaded part of a repository is known to answer a query completely: all of the
    /// tree has been read, and the query does not reach through links, which a tree leaves out.
    pub open spec fn answers_completely(self, id: RepositoryView, query: QueryView) -> bool {
        &&& query is FilesNamed
        &&& self.tree(id) matches Some(tree)
        &&& tree.fully_loaded_from(tree.root)
    }

    /// What is to be done to answer a query.
    pub open spec fn plan(
        self,
        id: RepositoryView,
        query: QueryView,
        budget: RepoContentsQueryBudget,
        has_remote_provider: bool,
    ) -> PlanView {
        match self.loaded_answer(id, query) {
            Err(error) => PlanView::Ready(Err(error)),
            Ok(contents) => if self.answers_completely(id, query) {
                PlanView::Ready(Ok(contents))
            } else {
                match id {
                    RepositoryView::Local(repo_root) => {
                        PlanView::ScanLocal { repo_root, query, budget }
                    },
                    RepositoryView::Remote(id) => if has_remote_provider {
                        PlanView::AskRemote { id, query, budget }
                    } else {
                        PlanView::Ready(Err(QueryErrorView::RemoteQueryUnavailable(id)))
                    },
                }
            },
        }
    }
}

/// Setting the state of one repository leaves every other one alone, on this machine and on
/// others.
pub proof fn repositories_are_independent(
    model: ModelView,
    id: RepositoryView,
    state: RepoStateView,
    other: RepositoryView,
)
    requires
        id != other,
    ensures
        model.with_state(id, state).state(id) == Some(state),
        model.with_state(id, state).state(other) == model.state(other),
        model.without(id).state(id) is None,
        model.without(id).state(other) == model.state(other),
{
}

/// Removing a host takes away its repositories and no others.
pub proof fn removing_a_host_removes_its_repositories(
    model: ModelView,
    host: Seq<char>,
    id: RepositoryView,
)
    ensures
        (id matches RepositoryView::Remote(remote) && remote.host == host)
            ==> model.without_host(host).state(id) is None,
        !(id matches RepositoryView::Remote(remote) && remote.host == host)
            ==> model.without_host(host).state(id) == model.state(id),
{
}

/// A directory-load response leaves each directory that stays in the tree of its repository with
/// exactly the listed nodes as its child nodes, marked loaded, and every other repository as it
/// was.
pub proof fn loaded_directories_replace_their_listings(
    model: ModelView,
    host: Seq<char>,
    update: UpdateView,
    j: int,
    other: RepositoryView,
)
    requires
        model.tree(RepositoryView::Remote(HostPathView { host, path: update.repo })) is Some,
        model.tree(RepositoryView::Remote(HostPathView { host, path: update.repo }))->0.valid(),
        model.tree(
            RepositoryView::Remote(HostPathView { host, path: update.repo }),
        )->0.is_directory(update.entries[j].parent),
        listing::is_last_entry(update.entries, j),
        forall|k: int|
            0 <= k < update.entries.len() && update.entries[j].parent.strictly_below(
                (#[trigger] update.entries[k]).parent,
            ) ==> listing::lies_in_a_directory(
                listing::immediate_children(update.entries[k].parent, update.entries[k].nodes),
                update.entries[j].parent,
            ),
        other != RepositoryView::Remote(HostPathView { host, path: update.repo }),
    ensures
        model.with_loaded_directories(host, update).tree(
            RepositoryView::Remote(HostPathView { host, path: update.repo }),
        ) matches Some(tree) && listing::holds_entry(tree, update.entries, j),
        model.with_loaded_directories(host, update).state(other) == model.state(other),
{
    let id = RepositoryView::Remote(HostPathView { host, path: update.repo });
    let tree = model.tree(id)->0;
    assert(listing::has_entry(update.entries, update.entries[j].parent));
    listing::kept_directories_are_loaded(tree, update.entries, update.entries[j].parent);
    listing::loaded_directories_have_their_listings(tree, update.entries, j);
}

/// An answer that is given without further work holds exactly the nodes of the tree that the
/// query asks for, and no part of the tree was left unread.
pub proof fn ready_answers_are_complete(
    model: ModelView,
    id: RepositoryView,
    query: QueryView,
    budget: RepoContentsQueryBudget,
    has_remote_provider: bool,
    node: NodeView,
)
    requires
        model.plan(id, query, budget, has_remote_provider) is Ready,
        model.plan(id, query, budget, has_remote_provider)->Ready_0 is Ok,
    ensures
        model.tree(id) is Some,
        model.tree(id)->0.fully_loaded_from(model.tree(id)->0.root),
        model.plan(id, query, budget, has_remote_provider)->Ready_0->Ok_0.contains(node) <==> {
            &&& model.tree(id)->0.nodes().contains(node)
            &&& query::query_matches_node(node, query)
        },
{
    let tree = model.tree(id)->0;
    let args = query::loaded_query_args(query);
    let keep = |node: NodeView| args.selects(node);
    let nodes = tree.nodes();
    query::loaded_query_selects_the_matches(query, node);
    if nodes.filter(keep).contains(node) {
        let k = choose|k: int| 0 <= k < nodes.filter(keep).len() && nodes.filter(keep)[k] == node;
        nodes.lemma_filter_pred(keep, k);
        nodes.lemma_filter_contains_rev(keep, node);
    }
    if nodes.contains(node) && keep(node) {
        let k = choose|k: int| 0 <= k < nodes.len() && nodes[k] == node;
        nodes.lemma_filter_contains(keep, k);
    }
}

/// Errors, states and plans say what stands in them.
pub proof fn states_and_plans_keep_every_field(
    error: RepoMetadataError,
    message: String,
    limit: usize,
    state: FileTreeState,
    repo_root: StandardizedPath,
    remote: RemoteRepositoryIdentifier,
    query: RepoMetadataQuery,
    budget: RepoContentsQueryBudget,
    answer: Result<Vec<OwnedRepoContent>, RepoContentsQueryError>,
    i: int,
)
    ensures
        RepoMetadataError::RepositoryNotFound@ is RepositoryNotFound,
        (RepoMetadataError::ResultSizeExceeded { limit })@ == (
        MetadataErrorView::ResultSizeExceeded { limit }),
        (RepoMetadataError::IndexingFailed { message })@ == (MetadataErrorView::IndexingFailed {
            message: message@,
        }),
        IndexedRepoState::Indexed(state)@ == RepoStateView::Indexed(state.entry@),
        IndexedRepoState::Pending@ is Pending,
        IndexedRepoState::Failed(error)@ == RepoStateView::Failed(error@),
        (RepoContentsPlan::ScanLocal { repo_root, query, budget })@ == (PlanView::ScanLocal {
            repo_root: repo_root@,
            query: query@,
            budget,
        }),
        (RepoContentsPlan::AskRemote { id: remote, query, budget })@ == (PlanView::AskRemote {
            id: remote@,
            query: query@,
            budget,
        }),
        RepoContentsPlan::Ready(answer)@ is Ready,
        answer matches Err(error) ==> RepoContentsPlan::Ready(answer)@->Ready_0 == Err::<
            Seq<NodeView>,
            _,
        >(error@),
        answer matches Ok(contents) ==> (RepoContentsPlan::Ready(answer)@->Ready_0 matches Ok(nodes)
            && nodes.len() == contents@.len() && (0 <= i < contents@.len() ==> nodes[i]
            == contents@[i]@)),
{
}

/// A repository is tracked as the model holds it, a local one under its path and a remote one under
/// its host and path; it has a tree exactly if it is indexed.
pub proof fn repositories_are_known_by_place(
    model: ModelView,
    path: PathView,
    remote: HostPathView,
)
    ensures
        model.local.contains_key(path) ==> model.state(RepositoryView::Local(path)) == Some(
            model.local[path],
        ),
        !model.local.contains_key(path) ==> model.state(RepositoryView::Local(path)) is None,
        model.remote.contains_key(remote) ==> model.state(RepositoryView::Remote(remote)) == Some(
            model.remote[remote],
        ),
        !model.remote.contains_key(remote) ==> model.state(RepositoryView::Remote(remote)) is None,
        forall|id: RepositoryView|
            match #[trigger] model.state(id) {
                Some(RepoStateView::Indexed(tree)) => model.tree(id) == Some(tree),
                _ => model.tree(id) is None,
            },
{
}

/// A local repository can be removed once and not again before it is tracked again; a remote one
/// can be removed whether or not it is tracked.
pub proof fn local_repositories_are_removed_once(
    model: ModelView,
    path: PathView,
    remote: HostPathView,
    state: RepoStateView,
)
    ensures
        model.removal_error(RepositoryView::Remote(remote)) is None,
        model.local.contains_key(path) ==> model.removal_error(RepositoryView::Local(path)) is None,
        model.without(RepositoryView::Local(path)).removal_error(RepositoryView::Local(path))
            == Some(MetadataErrorView::RepositoryNotFound),
        model.with_state(RepositoryView::Local(path), state).removal_error(
            RepositoryView::Local(path),
        ) is None,
{
}

/// Rosters hold every repository that is tracked and no other, each once, and no remote one before
/// a local one.
pub proof fn rosters_hold_every_repository(
    model: ModelView,
    ids: Seq<RepositoryView>,
    path: PathView,
    remote: HostPathView,
    i: int,
    j: int,
)
    requires
        model.is_roster(ids),
    ensures
        ids.contains(RepositoryView::Local(path)) <==> model.local.contains_key(path),
        ids.contains(RepositoryView::Remote(remote)) <==> model.remote.contains_key(remote),
        0 <= i < j < ids.len() ==> ids[i] != ids[j] && !(ids[i] is Remote && ids[j] is Local),
{
}

/// What is done to one repository, or to the repositories of a host, leaves alone whether changes
/// are reported for sending.
pub proof fn tracking_leaves_reporting_alone(
    model: ModelView,
    id: RepositoryView,
    state: RepoStateView,
    host: Seq<char>,
    update: UpdateView,
)
    ensures
        model.with_state(id, state).emits_incremental_updates == model.emits_incremental_updates,
        model.without(id).emits_incremental_updates == model.emits_incremental_updates,
        model.without_host(host).emits_incremental_updates == model.emits_incremental_updates,
        model.with_loaded_directories(host, update).emits_incremental_updates
            == model.emits_incremental_updates,
{
}

/// A directory-load response for a repository that is not indexed changes nothing.
pub proof fn loads_without_a_tree_change_nothing(
    model: ModelView,
    host: Seq<char>,
    update: UpdateView,
)
    requires
        model.tree(RepositoryView::Remote(HostPathView { host, path: update.repo })) is None,
    ensures
        model.with_loaded_directories(host, update) == model,
{
}

/// The repository that a path is found in holds the path, and lies inside of every other tracked
/// repository that holds it.
pub proof fn paths_are_found_in_the_innermost_repository(
    model: ModelView,
    root: PathView,
    path: PathView,
    other: PathView,
)
    requires
        model.is_innermost_root(root, path),
        model.local.contains_key(other),
        other == path || path.strictly_below(other),
    ensures
        root == path || path.strictly_below(root),
        other == root || root.strictly_below(other),
        model.is_innermost_root(other, path) ==> other == root,
{
    assert(path::lies_in(path, other));
    assert(other.components.len() <= root.components.len());
    assert(root.components =~= path.components.take(root.components.len() as int));
    assert(other.components =~= path.components.take(other.components.len() as int));
    assert(root.components.take(other.components.len() as int) =~= other.components);
    if other.components.len() == root.components.len() {
        assert(other.components =~= root.components);
    }
    if model.is_innermost_root(other, path) {
        assert(model.local.contains_key(root) && path::lies_in(path, root));
    }
}

/// A repository that holds a path and that no other tracked repository inside of it holds is the
/// one that the path is found in.
pub proof fn innermost_repositories_are_found(model: ModelView, root: PathView, path: PathView)
    requires
        model.local.contains_key(root),
        root == path || path.strictly_below(root),
        forall|other: PathView| #[trigger]
            model.local.contains_key(other) && path::lies_in(path, other)
                ==> !other.strictly_below(root),
    ensures
        model.is_innermost_root(root, path),
{
    assert forall|other: PathView| #[trigger]
        model.local.contains_key(other) && path::lies_in(path, other) implies other.components.len()
        <= root.components.len() by {
        lemma_roots_of_a_path_are_nested(path, other, root);
    }
}

/// Up to a hundred nodes that are asked for are returned, all of them, as they are in the tree and
/// in its order; more than a hundred are none.
pub proof fn contents_are_all_that_is_asked_for(tree: TreeView, args: ArgsView, node: NodeView)
    ensures
        ({
            let all = tree.nodes().filter(|node: NodeView| args.selects(node));
            &&& loaded_contents(tree, args) is Ok <==> all.len() <= 100
            &&& loaded_contents(tree, args) matches Ok(contents) ==> {
                &&& contents.len() <= 100
                &&& contents.len() == all.len()
                &&& forall|i: int| 0 <= i < all.len() ==> #[trigger] contents[i] == all[i]
                &&& contents.contains(node) <==> tree.nodes().contains(node) && args.selects(node)
            }
            &&& loaded_contents(tree, args) matches Err(error) ==> error
                == (MetadataErrorView::ResultSizeExceeded { limit: 100 })
        }),
{
    let keep = |node: NodeView| args.selects(node);
    let nodes = tree.nodes();
    let all = nodes.filter(keep);
    if all.contains(node) {
        let k = choose|k: int| 0 <= k < all.len() && all[k] == node;
        nodes.lemma_filter_pred(keep, k);
        nodes.lemma_filter_contains_rev(keep, node);
    }
    if nodes.contains(node) && keep(node) {
        let k = choose|k: int| 0 <= k < nodes.len() && nodes[k] == node;
        nodes.lemma_filter_contains(keep, k);
    }
}

/// A repository that is not tracked, is not indexed yet, or could not be indexed answers no query:
/// each case is reported as what it is, with the repository, and nothing is scanned or asked.
pub proof fn queries_need_an_indexed_repository(
    model: ModelView,
    id: RepositoryView,
    query: QueryView,
    budget: RepoContentsQueryBudget,
    has_remote_provider: bool,
)
    ensures
        ({
            let plan = model.plan(id, query, budget, has_remote_provider);
            &&& model.state(id) is None ==> plan == PlanView::Ready(
                Err(QueryErrorView::RepositoryNotFound(id)),
            )
            &&& model.state(id) == Some(RepoStateView::Pending) ==> plan == PlanView::Ready(
                Err(QueryErrorView::RepositoryPending(id)),
            )
            &&& model.state(id) matches Some(RepoStateView::Failed(error)) ==> plan
                == PlanView::Ready(
                Err(
                    QueryErrorView::RepositoryIndexingFailed { id, message: error.text() },
                ),
            )
        }),
{
}

/// What is asked of a tree for a query are the nodes that the query matches.
proof fn lemma_loaded_matches(tree: TreeView, query: QueryView)
    ensures
        ({
            let args = query::loaded_query_args(query);
            tree.nodes().filter(|node: NodeView| args.selects(node)) == tree.nodes().filter(
                |node: NodeView| query::query_matches_node(node, query),
            )
        }),
{
    let args = query::loaded_query_args(query);
    let keep = |node: NodeView| args.selects(node);
    let matches = |node: NodeView| query::query_matches_node(node, query);
    assert forall|node: NodeView| #[trigger] keep(node) == matches(node) by {
        query::loaded_query_selects_the_matches(query, node);
    }
    sequence::lemma_filters_agree(tree.nodes(), keep, matches);
}

/// An answer is given without further work only where every directory that is reached from the root
/// of the tree has been read, whether or not it is ignored. Then it is given for every query by
/// name that matches a hundred nodes at most, and holds exactly the matching nodes of the tree.
pub proof fn only_read_trees_answer_by_themselves(
    model: ModelView,
    id: RepositoryView,
    names: Seq<Seq<char>>,
    query: QueryView,
    budget: RepoContentsQueryBudget,
    has_remote_provider: bool,
    directory: PathView,
)
    requires
        model.tree(id) is Some,
    ensures
        ({
            let tree = model.tree(id)->0;
            let plan = model.plan(id, query, budget, has_remote_provider);
            let by_name = QueryView::FilesNamed { names };
            let matching = tree.nodes().filter(
                |node: NodeView| query::query_matches_node(node, by_name),
            );
            &&& plan is Ready && plan->Ready_0 is Ok && tree.reaches(tree.root, directory) ==> (
            tree.states[directory] matches NodeView::Directory { loaded, .. } && loaded)
            &&& plan is Ready && plan->Ready_0 is Ok ==> query is FilesNamed
            &&& (forall|other: PathView| #[trigger]
                tree.reaches(tree.root, other) ==> (tree.states[other] matches NodeView::Directory {
                    loaded,
                    ..
                } && loaded)) && matching.len() <= 100 ==> {
                let answer = model.plan(id, by_name, budget, has_remote_provider);
                &&& answer is Ready
                &&& answer->Ready_0 is Ok
                &&& answer->Ready_0->Ok_0 == matching
            }
        }),
{
    let tree = model.tree(id)->0;
    let by_name = QueryView::FilesNamed { names };
    tree::fully_loaded_trees_have_every_directory_read(tree, tree.root);
    lemma_loaded_matches(tree, by_name);
}

/// A tree with a directory that has not been read does not answer by itself. As long as what it
/// holds is not too much, a local repository is scanned, and a remote one is asked for if it can
/// be, for the query and within the budget that were given.
pub proof fn unread_trees_are_not_taken_for_the_answer(
    model: ModelView,
    id: RepositoryView,
    query: QueryView,
    budget: RepoContentsQueryBudget,
    directory: PathView,
    ignored: bool,
)
    requires
        model.tree(id) is Some,
        model.tree(id)->0.reaches(model.tree(id)->0.root, directory),
        model.tree(id)->0.states[directory] == (NodeView::Directory {
            path: directory,
            ignored,
            loaded: false,
        }),
        model.tree(id)->0.nodes().filter(
            |node: NodeView| query::query_matches_node(node, query),
        ).len() <= 100,
    ensures
        match id {
            RepositoryView::Local(repo_root) => {
                &&& model.plan(id, query, budget, true) == (PlanView::ScanLocal {
                    repo_root,
                    query,
                    budget,
                })
                &&& model.plan(id, query, budget, false) == (PlanView::ScanLocal {
                    repo_root,
                    query,
                    budget,
                })
            },
            RepositoryView::Remote(remote) => {
                &&& model.plan(id, query, budget, true) == (PlanView::AskRemote {
                    id: remote,
                    query,
                    budget,
                })
                &&& model.plan(id, query, budget, false) == PlanView::Ready(
                    Err(QueryErrorView::RemoteQueryUnavailable(remote)),
                )
            },
        },
{
    let tree = model.tree(id)->0;
    tree::one_unread_directory_is_enough(tree, tree.root, directory, ignored);
    lemma_loaded_matches(tree, query);
}

/// A tree never answers a query for skill files by itself, because such a query reaches through
/// links: it goes to the repository, like a query that a tree has not been read far enough for.
pub proof fn skill_queries_go_to_the_repository(
    model: ModelView,
    id: RepositoryView,
    provider_paths: Seq<Seq<char>>,
    budget: RepoContentsQueryBudget,
)
    requires
        model.tree(id) is Some,
        model.tree(id)->0.nodes().filter(
            |node: NodeView|
                query::query_matches_node(node, QueryView::ProjectSkillFiles { provider_paths }),
        ).len() <= 100,
    ensures
        ({
            let query = QueryView::ProjectSkillFiles { provider_paths };
            match id {
                RepositoryView::Local(repo_root) => model.plan(id, query, budget, false) == (
                PlanView::ScanLocal { repo_root, query, budget }),
                RepositoryView::Remote(remote) => {
                    &&& model.plan(id, query, budget, true) == (PlanView::AskRemote {
                        id: remote,
                        query,
                        budget,
                    })
                    &&& model.plan(id, query, budget, false) == PlanView::Ready(
                        Err(QueryErrorView::RemoteQueryUnavailable(remote)),
                    )
                },
            }
        }),
{
    let tree = model.tree(id)->0;
    let query = QueryView::ProjectSkillFiles { provider_paths };
    lemma_loaded_matches(tree, query);
}

/// More than a hundred matches in the loaded part of a tree are reported as a failure that says so,
/// whatever has been read of the tree.
pub proof fn too_many_matches_are_a_failure(
    model: ModelView,
    id: RepositoryView,
    query: QueryView,
    budget: RepoContentsQueryBudget,
    has_remote_provider: bool,
)
    requires
        model.tree(id) is Some,
        model.tree(id)->0.nodes().filter(
            |node: NodeView| query::query_matches_node(node, query),
        ).len() > 100,
    ensures
        model.plan(id, query, budget, has_remote_provider) == PlanView::Ready(
            Err(
                QueryErrorView::QueryFailed {
                    message: "Result size exceeded maximum limit of "@ + text::decimal(100),
                },
            ),
        ),
{
    let tree = model.tree(id)->0;
    lemma_loaded_matches(tree, query);
}

/// Errors are reported in words of their own, a failure of indexing in the words that it came with.
pub proof fn errors_are_told_apart(limit: usize, message: Seq<char>)
    ensures
        MetadataErrorView::RepositoryNotFound.text() == "Repository not found"@,
        (MetadataErrorView::ResultSizeExceeded { limit }).text()
            == "Result size exceeded maximum limit of "@ + text::decimal(limit as nat),
        (MetadataErrorView::IndexingFailed { message }).text() == message,
{
}

/// The nodes of a tree are those that the tree holds at their paths.
proof fn lemma_nodes_are_states(tree: TreeView, k: int)
    requires
        tree.valid(),
        0 <= k < tree.nodes().len(),
    ensures
        tree.states.contains_key(tree.nodes()[k].path()),
        tree.states[tree.nodes()[k].path()] == tree.nodes()[k],
{
    let f = |path: PathView| tree.child_nodes(path);
    let state = |child: PathView| tree.state(child);
    if k > 0 {
        let source = sequence::lemma_flat_map_source(tree.directories(), f, k - 1);
        let children = tree.children(tree.directories()[source.0]);
        let i = sequence::lemma_filter_map_source(children, state, source.1);
        assert(tree.states.contains_key(children[i]));
    }
}

/// Whether an item of a walk is a file or a directory that a tree holds.
pub open spec fn item_is_in_tree(
    item: Result<WalkEntryView, Seq<char>>,
    tree: TreeView,
    local: PathEncoding,
) -> bool {
    &&& item matches Ok(entry)
    &&& !scan::is_git_directory(entry)
    &&& entry.kind == WalkEntryKind::Directory || entry.kind == WalkEntryKind::File
    &&& scan::local_path(entry.path, local) matches Some(path)
    &&& exists|k: int|
        0 <= k < tree.nodes().len() && (#[trigger] tree.nodes()[k]).path() == path && (
        tree.nodes()[k] is Directory <==> entry.kind == WalkEntryKind::Directory)
}

/// Whether a node of a tree is among the items of a walk.
pub open spec fn node_is_in_walk(
    node: NodeView,
    items: Seq<Result<WalkEntryView, Seq<char>>>,
    local: PathEncoding,
) -> bool {
    exists|i: int|
        0 <= i < items.len() && (#[trigger] items[i] matches Ok(entry) && scan::local_path(
            entry.path,
            local,
        ) == Some(node.path()))
}

/// Whether a walk shows what a tree holds: every item is a file or a directory of the tree, and
/// every node of the tree is among the items.
pub open spec fn walk_shows(
    items: Seq<Result<WalkEntryView, Seq<char>>>,
    tree: TreeView,
    local: PathEncoding,
) -> bool {
    &&& forall|i: int| 0 <= i < items.len() ==> #[trigger] item_is_in_tree(items[i], tree, local)
    &&& forall|k: int|
        0 <= k < tree.nodes().len() ==> #[trigger] node_is_in_walk(
            tree.nodes()[k],
            items,
            local,
        )
}

/// Whether some node of a sequence is a directory, or a file, at `path`.
pub open spec fn has_node_at(nodes: Seq<NodeView>, path: PathView, is_directory: bool) -> bool {
    exists|k: int|
        0 <= k < nodes.len() && (#[trigger] nodes[k]).path() == path && (nodes[k] is Directory)
            == is_directory
}

/// What a scan finds, the tree answers.
proof fn lemma_scan_finds_nodes_of_the_tree(
    tree: TreeView,
    items: Seq<Result<WalkEntryView, Seq<char>>>,
    query: QueryView,
    local: PathEncoding,
    m: int,
) -> (n: int)
    requires
        walk_shows(items, tree, local),
        0 <= m < scan::all_found(items, query, local).len(),
    ensures
        ({
            let args = query::loaded_query_args(query);
            let answer = tree.nodes().filter(|node: NodeView| args.selects(node));
            &&& 0 <= n < answer.len()
            &&& answer[n].path() == scan::all_found(items, query, local)[m].path()
            &&& answer[n] is Directory <==> scan::all_found(items, query, local)[m] is Directory
        }),
{
    let args = query::loaded_query_args(query);
    let keep = |node: NodeView| args.selects(node);
    let nodes = tree.nodes();
    let answer = nodes.filter(keep);
    let i = sequence::lemma_filter_map_source(
        items,
        |item| scan::found(item, query, local),
        m,
    );
    assert(item_is_in_tree(items[i], tree, local));
    let entry = items[i]->Ok_0;
    let path = scan::local_path(entry.path, local)->0;
    let k = choose|k: int|
        0 <= k < nodes.len() && (#[trigger] nodes[k]).path() == path && (nodes[k] is Directory
            <==> entry.kind == WalkEntryKind::Directory);
    query::loaded_query_selects_the_matches(query, nodes[k]);
    nodes.lemma_filter_contains(keep, k);
    let n = choose|n: int| 0 <= n < answer.len() && answer[n] == nodes[k];
    n
}

/// What the tree answers, a scan finds.
proof fn lemma_scan_finds_the_answer_of_the_tree(
    tree: TreeView,
    items: Seq<Result<WalkEntryView, Seq<char>>>,
    query: QueryView,
    local: PathEncoding,
    n: int,
) -> (m: int)
    requires
        tree.valid(),
        walk_shows(items, tree, local),
        ({
            let args = query::loaded_query_args(query);
            0 <= n < tree.nodes().filter(|node: NodeView| args.selects(node)).len()
        }),
    ensures
        ({
            let args = query::loaded_query_args(query);
            let answer = tree.nodes().filter(|node: NodeView| args.selects(node));
            &&& 0 <= m < scan::all_found(items, query, local).len()
            &&& answer[n].path() == scan::all_found(items, query, local)[m].path()
            &&& answer[n] is Directory <==> scan::all_found(items, query, local)[m] is Directory
        }),
{
    let args = query::loaded_query_args(query);
    let keep = |node: NodeView| args.selects(node);
    let nodes = tree.nodes();
    let node = nodes.filter(keep)[n];
    nodes.lemma_filter_pred(keep, n);
    assert(nodes.filter(keep).contains(node));
    nodes.lemma_filter_contains_rev(keep, node);
    let k = choose|k: int| 0 <= k < nodes.len() && nodes[k] == node;
    query::loaded_query_selects_the_matches(query, node);
    assert(node_is_in_walk(nodes[k], items, local));
    let i = choose|i: int|
        0 <= i < items.len() && (#[trigger] items[i] matches Ok(entry) && scan::local_path(
            entry.path,
            local,
        ) == Some(node.path()));
    assert(item_is_in_tree(items[i], tree, local));
    let entry = items[i]->Ok_0;
    let other = choose|other: int|
        0 <= other < nodes.len() && (#[trigger] nodes[other]).path() == node.path() && (
        nodes[other] is Directory <==> entry.kind == WalkEntryKind::Directory);
    lemma_nodes_are_states(tree, k);
    lemma_nodes_are_states(tree, other);
    let f = |item| scan::found(item, query, local);
    assert(scan::found(items[i], query, local) is Some);
    sequence::lemma_filter_map_keeps(items, f, i);
    let found = scan::all_found(items, query, local);
    let hit = scan::found(items[i], query, local)->0;
    let m = choose|m: int| 0 <= m < found.len() && found[m] == hit;
    m
}

/// A scan finds what a fully loaded tree answers: where the walk shows what the tree holds, both
/// have the same files and directories.
pub proof fn scan_agrees_with_the_loaded_tree(
    tree: TreeView,
    items: Seq<Result<WalkEntryView, Seq<char>>>,
    query: QueryView,
    local: PathEncoding,
    path: PathView,
    is_directory: bool,
)
    requires
        tree.valid(),
        walk_shows(items, tree, local),
    ensures
        has_node_at(scan::all_found(items, query, local), path, is_directory) <==> has_node_at(
            tree.nodes().filter(
                |node: NodeView| query::loaded_query_args(query).selects(node),
            ),
            path,
            is_directory,
        ),
{
    let args = query::loaded_query_args(query);
    let answer = tree.nodes().filter(|node: NodeView| args.selects(node));
    let found = scan::all_found(items, query, local);
    assert(answer == tree.nodes().filter(
        |node: NodeView| query::loaded_query_args(query).selects(node),
    ));
    if has_node_at(found, path, is_directory) {
        let m = choose|m: int|
            0 <= m < found.len() && (#[trigger] found[m]).path() == path && (found[m] is Directory)
                == is_directory;
        let n = lemma_scan_finds_nodes_of_the_tree(tree, items, query, local, m);
        assert(answer[n].path() == path);
    }
    if has_node_at(answer, path, is_directory) {
        let n = choose|n: int|
            0 <= n < answer.len() && (#[trigger] answer[n]).path() == path && (
            answer[n] is Directory) == is_directory;
        let m = lemma_scan_finds_the_answer_of_the_tree(tree, items, query, local, n);
        assert(found[m].path() == path);
    }
}

/// A query for skills is never answered from the loaded tree alone: it always leads to a scan or
/// a request, or to an error.
pub proof fn skill_queries_look_beyond_the_tree(
    model: ModelView,
    id: RepositoryView,
    query: QueryView,
    budget: RepoContentsQueryBudget,
    has_remote_provider: bool,
)
    requires
        query is ProjectSkillFiles,
    ensures
        model.plan(id, query, budget, has_remote_provider) matches PlanView::Ready(answer)
            ==> answer is Err,
{
}

/// What is to be done to answer a query.
#[derive(Debug)]
pub enum RepoContentsPlan {
    /// Nothing: this is the answer.
    Ready(Result<Vec<OwnedRepoContent>, RepoContentsQueryError>),
    /// The repository on this machine is to be scanned.
    ScanLocal {
        repo_root: StandardizedPath,
        query: RepoMetadataQuery,
        budget: RepoContentsQueryBudget,
    },
    /// The provider for remote queries is to be asked.
    AskRemote {
        id: RemoteRepositoryIdentifier,
        query: RepoMetadataQuery,
        budget: RepoContentsQueryBudget,
    },
}

/// What an answer to a query says.
pub open spec fn answer_view(answer: Result<Vec<OwnedRepoContent>, RepoContentsQueryError>) -> Result<
    Seq<NodeView>,
    QueryErrorView,
> {
    match answer {
        Ok(contents) => Ok(node::content_views(contents@)),
        Err(error) => Err(error@),
    }
}

impl View for RepoContentsPlan {
    type V = PlanView;

    open spec fn view(&self) -> PlanView {
        match self {
            RepoContentsPlan::Ready(answer) => PlanView::Ready(answer_view(*answer)),
            RepoContentsPlan::ScanLocal { repo_root, query, budget } => {
                PlanView::ScanLocal { repo_root: repo_root@, query: query@, budget: *budget }
            },
            RepoContentsPlan::AskRemote { id, query, budget } => {
                PlanView::AskRemote { id: id@, query: query@, budget: *budget }
            },
        }
    }
}

/// The nodes of a tree that are asked for.
pub fn get_loaded_contents<'a>(state: &'a FileTreeState, args: &GetContentsArgs) -> (contents:
    Result<Vec<RepoContent<'a>>, RepoMetadataError>)
    ensures
        state.entry@.valid(),
        match contents {
            Ok(contents) => loaded_contents(state.entry@, args@) == Ok::<_, MetadataErrorView>(
                node::borrowed_views(contents@),
            ),
            Err(error) => loaded_contents(state.entry@, args@) == Err::<Seq<NodeView>, _>(error@),
        },
{
    let ghost keep = |node: NodeView| args@.selects(node);
    let nodes: Vec<RepoContent<'a>> = state.entry.nodes();
    let ghost all = node::borrowed_views(nodes@);
    let mut selected: Vec<RepoContent<'a>> = Vec::new();
    proof {
        reveal(Seq::filter);
        assert(node::borrowed_views(selected@) =~= all.take(0).filter(keep));
    }
    for content in iter: nodes.into_iter()
        invariant
            iter.seq() == nodes@,
            all == node::borrowed_views(nodes@),
            keep == (|node: NodeView| args@.selects(node)),
            node::borrowed_views(selected@) == all.take(iter.index() as int).filter(keep),
    {
        let ghost i = iter.index() as int;
        let ghost before = node::borrowed_views(selected@);
        proof {
            assert(all.take(i + 1) =~= all.take(i).push(all[i]));
            sequence::lemma_filter_push(all.take(i), all[i], keep);
        }
        if args.selects(&content) {
            selected.push(content);
            assert(node::borrowed_views(selected@) =~= before.push(all[i]));
        }
    }
    assert(all.take(all.len() as int) =~= all);
    if selected.len() > MAX_REPO_CONTENTS_RESULTS {
        return Err(RepoMetadataError::ResultSizeExceeded { limit: MAX_REPO_CONTENTS_RESULTS });
    }
    Ok(selected)
}

/// One entry point for metadata of local and remote repositories.
#[derive(Debug)]
pub struct RepoMetadataModel {
    local: Table<StandardizedPath, IndexedRepoState>,
    remote: Table<RemoteRepositoryIdentifier, IndexedRepoState>,
    emits_incremental_updates: bool,
}

impl View for RepoMetadataModel {
    type V = ModelView;

    closed spec fn view(&self) -> ModelView {
        ModelView {
            local: self.local@.map_values(|state: IndexedRepoState| state@),
            remote: self.remote@.map_values(|state: IndexedRepoState| state@),
            emits_incremental_updates: self.emits_incremental_updates,
        }
    }
}

impl RepoMetadataModel {
    /// A model that tracks nothing yet.
    pub fn new() -> (model: RepoMetadataModel)
        ensures
            model@ == (ModelView {
                local: Map::empty(),
                remote: Map::empty(),
                emits_incremental_updates: false,
            }),
    {
        let model = RepoMetadataModel {
            local: Table::new(),
            remote: Table::new(),
            emits_incremental_updates: false,
        };
        proof {
            assert(model@.local =~= Map::empty());
            assert(model@.remote =~= Map::empty());
        }
        model
    }

    /// A model that tracks nothing yet and has changes of local trees reported for sending.
    pub fn new_with_incremental_updates() -> (model: RepoMetadataModel)
        ensures
            model@ == (ModelView {
                local: Map::empty(),
                remote: Map::empty(),
                emits_incremental_updates: true,
            }),
    {
        let model = RepoMetadataModel {
            local: Table::new(),
            remote: Table::new(),
            emits_incremental_updates: true,
        };
        proof {
            assert(model@.local =~= Map::empty());
            assert(model@.remote =~= Map::empty());
        }
        model
    }

    /// Whether changes of local trees are reported for sending.
    pub fn emits_incremental_updates(&self) -> (emits: bool)
        ensures
            emits == self@.emits_incremental_updates,
    {
        self.emits_incremental_updates
    }

    /// A report about a local repository as a report about a repository anywhere.
    pub fn forward_local_event(event: &RepositoryMetadataEvent) -> (unified: RepoMetadataEvent)
        ensures
            unified@ == event@.renamed(|path: PathView| RepositoryView::Local(path)),
    {
        match event {
            RepositoryMetadataEvent::RepositoryUpdated { path } => {
                RepoMetadataEvent::RepositoryUpdated {
                    id: RepositoryIdentifier::local(path.clone()),
                }
            },
            RepositoryMetadataEvent::RepositoryRemoved { path } => {
                RepoMetadataEvent::RepositoryRemoved {
                    id: RepositoryIdentifier::local(path.clone()),
                }
            },
            RepositoryMetadataEvent::FileTreeUpdated { paths } => {
                let mut ids: Vec<RepositoryIdentifier> = Vec::new();
                let mut i: usize = 0;
                while i < paths.len()
                    invariant
                        i <= paths.len(),
                        ids@.len() == i,
                        forall|k: int|
                            0 <= k < i ==> (#[trigger] ids@[k])@ == RepositoryView::Local(
                                paths@[k]@,
                            ),
                    decreases paths.len() - i,
                {
                    ids.push(RepositoryIdentifier::local(paths[i].clone()));
                    i = i + 1;
                }
                let unified = RepoMetadataEvent::FileTreeUpdated { ids };
                assert(unified@ =~= event@.renamed(|path: PathView| RepositoryView::Local(path)));
                unified
            },
            RepositoryMetadataEvent::FileTreeEntryUpdated { path, update_type } => {
                RepoMetadataEvent::FileTreeEntryUpdated {
                    id: RepositoryIdentifier::local(path.clone()),
                    update_type: update_type.clone(),
                }
            },
            RepositoryMetadataEvent::UpdatingRepositoryFailed { path } => {
                RepoMetadataEvent::UpdatingRepositoryFailed {
                    id: RepositoryIdentifier::local(path.clone()),
                }
            },
            RepositoryMetadataEvent::IncrementalUpdateReady { update } => {
                RepoMetadataEvent::IncrementalUpdateReady { update: update.clone() }
            },
        }
    }

    /// A report about a repository on another host as a report about a repository anywhere.
    pub fn forward_remote_event(event: &RemoteRepositoryMetadataEvent) -> (unified:
        RepoMetadataEvent)
        ensures
            unified@ == event@.renamed(|id: HostPathView| RepositoryView::Remote(id)),
    {
        match event {
            RemoteRepositoryMetadataEvent::RepositoryUpdated { id } => {
                RepoMetadataEvent::RepositoryUpdated {
                    id: RepositoryIdentifier::Remote(id.clone()),
                }
            },
            RemoteRepositoryMetadataEvent::RepositoryRemoved { id } => {
                RepoMetadataEvent::RepositoryRemoved {
                    id: RepositoryIdentifier::Remote(id.clone()),
                }
            },
            RemoteRepositoryMetadataEvent::FileTreeUpdated { ids: remote_ids } => {
                let mut ids: Vec<RepositoryIdentifier> = Vec::new();
                let mut i: usize = 0;
                while i < remote_ids.len()
                    invariant
                        i <= remote_ids.len(),
                        ids@.len() == i,
                        forall|k: int|
                            0 <= k < i ==> (#[trigger] ids@[k])@ == RepositoryView::Remote(
                                remote_ids@[k]@,
                            ),
                    decreases remote_ids.len() - i,
                {
                    ids.push(RepositoryIdentifier::Remote(remote_ids[i].clone()));
                    i = i + 1;
                }
                let unified = RepoMetadataEvent::FileTreeUpdated { ids };
                assert(unified@ =~= event@.renamed(
                    |id: HostPathView| RepositoryView::Remote(id),
                ));
                unified
            },
            RemoteRepositoryMetadataEvent::FileTreeEntryUpdated { id, update_type } => {
                RepoMetadataEvent::FileTreeEntryUpdated {
                    id: RepositoryIdentifier::Remote(id.clone()),
                    update_type: update_type.clone(),
                }
            },
        }
    }

    /// How far the indexing of a repository has come.
    pub fn repository_state(&self, id: &RepositoryIdentifier) -> (state: Option<&IndexedRepoState>)
        ensures
            match state {
                Some(state) => self@.state(id@) == Some(state@),
                None => self@.state(id@) is None,
            },
    {
        match id {
            RepositoryIdentifier::Local(path) => self.local.get(path),
            RepositoryIdentifier::Remote(remote_id) => self.remote.get(remote_id),
        }
    }

    /// The file tree of a repository, where it is indexed.
    pub fn get_repository(&self, id: &RepositoryIdentifier) -> (state: Option<&FileTreeState>)
        ensures
            match state {
                Some(state) => self@.tree(id@) == Some(state.entry@),
                None => self@.tree(id@) is None,
            },
    {
        match self.repository_state(id) {
            Some(IndexedRepoState::Indexed(state)) => Some(state),
            _ => None,
        }
    }

    /// Whether a repository is indexed.
    pub fn has_repository(&self, id: &RepositoryIdentifier) -> (indexed: bool)
        ensures
            indexed == self@.tree(id@) is Some,
    {
        self.get_repository(id).is_some()
    }

    /// The nodes of the loaded part of a repository that are asked for; nothing is loaded on that
    /// account.
    pub fn get_loaded_repo_contents(&self, id: &RepositoryIdentifier, args: &GetContentsArgs) -> (
    contents: Result<Vec<RepoContent<'_>>, RepoMetadataError>)
        ensures
            ({
                let expected = match self@.tree(id@) {
                    Some(tree) => loaded_contents(tree, args@),
                    None => Err(MetadataErrorView::RepositoryNotFound),
                };
                match contents {
                    Ok(contents) => expected == Ok::<_, MetadataErrorView>(
                        node::borrowed_views(contents@),
                    ),
                    Err(error) => expected == Err::<Seq<NodeView>, _>(error@),
                }
            }),
    {
        match self.get_repository(id) {
            Some(state) => get_loaded_contents(state, args),
            None => Err(RepoMetadataError::RepositoryNotFound),
        }
    }

    /// What the loaded part of a repository answers to a query.
    pub fn loaded_query_contents(&self, id: &RepositoryIdentifier, query: &RepoMetadataQuery) -> (
    answer: Result<Vec<OwnedRepoContent>, RepoContentsQueryError>)
        ensures
            answer_view(answer) == self@.loaded_answer(id@, query@),
    {
        match self.repository_state(id) {
            Some(IndexedRepoState::Indexed(_)) => {},
            Some(IndexedRepoState::Pending) => {
                return Err(RepoContentsQueryError::RepositoryPending(id.clone()));
            },
            Some(IndexedRepoState::Failed(error)) => {
                return Err(
                    RepoContentsQueryError::RepositoryIndexingFailed {
                        id: id.clone(),
                        message: error.message(),
                    },
                );
            },
            None => {
                return Err(RepoContentsQueryError::RepositoryNotFound(id.clone()));
            },
        }
        let args: GetContentsArgs = get_loaded_query_args(query.clone());
        match self.get_loaded_repo_contents(id, &args) {
            Ok(contents) => {
                let mut owned: Vec<OwnedRepoContent> = Vec::new();
                let mut i: usize = 0;
                while i < contents.len()
                    invariant
                        i <= contents.len(),
                        owned@.len() == i,
                        forall|k: int| 0 <= k < i ==> (#[trigger] owned@[k])@ == contents@[k]@,
                    decreases contents.len() - i,
                {
                    owned.push(contents[i].to_owned());
                    i = i + 1;
                }
                assert(node::content_views(owned@) =~= node::borrowed_views(contents@));
                Ok(owned)
            },
            Err(error) => Err(RepoContentsQueryError::QueryFailed { message: error.message() }),
        }
    }

    /// What is to be done for authoritative contents of a repository.
    ///
    /// A fully loaded tree answers by itself, without input or output, what can be answered from a
    /// tree. Otherwise a local repository is to be scanned within the budget, and a remote one is
    /// to be asked for through the provider, where there is one. The matches that come back are
    /// answers only: the tree stays as it is.
    pub fn get_repo_contents(
        &self,
        id: RepositoryIdentifier,
        query: RepoMetadataQuery,
        budget: RepoContentsQueryBudget,
        has_remote_provider: bool,
    ) -> (plan: RepoContentsPlan)
        ensures
            plan@ == self@.plan(id@, query@, budget, has_remote_provider),
    {
        let contents = match self.loaded_query_contents(&id, &query) {
            Ok(contents) => contents,
            Err(error) => {
                return RepoContentsPlan::Ready(Err(error));
            },
        };
        let names_files = match &query {
            RepoMetadataQuery::FilesNamed { .. } => true,
            RepoMetadataQuery::ProjectSkillFiles { .. } => false,
        };
        let fully_loaded = match self.get_repository(&id) {
            Some(state) => tree_is_fully_loaded(&state.entry, state.entry.root_directory()),
            None => false,
        };
        if names_files && fully_loaded {
            return RepoContentsPlan::Ready(Ok(contents));
        }
        match id {
            RepositoryIdentifier::Local(repo_root) => {
                RepoContentsPlan::ScanLocal { repo_root, query, budget }
            },
            RepositoryIdentifier::Remote(id) => {
                if has_remote_provider {
                    RepoContentsPlan::AskRemote { id, query, budget }
                } else {
                    RepoContentsPlan::Ready(Err(RepoContentsQueryError::RemoteQueryUnavailable(id)))
                }
            },
        }
    }

    /// Records how far the indexing of a repository has come.
    pub fn set_repository_state(&mut self, id: RepositoryIdentifier, state: IndexedRepoState)
        ensures
            final(self)@ == old(self)@.with_state(id@, state@),
    {
        match id {
            RepositoryIdentifier::Local(path) => {
                let _ = self.local.insert(path, state);
            },
            RepositoryIdentifier::Remote(remote_id) => {
                let _ = self.remote.insert(remote_id, state);
            },
        }
        proof {
            assert(final(self)@.local =~= old(self)@.with_state(id@, state@).local);
            assert(final(self)@.remote =~= old(self)@.with_state(id@, state@).remote);
        }
    }

    /// Records a local repository as indexed.
    pub fn insert_test_state(&mut self, repo_path: StandardizedPath, state: FileTreeState)
        ensures
            final(self)@ == old(self)@.with_state(
                RepositoryView::Local(repo_path@),
                RepoStateView::Indexed(state.entry@),
            ),
    {
        self.set_repository_state(
            RepositoryIdentifier::Local(repo_path),
            IndexedRepoState::Indexed(state),
        );
    }

    /// Stops tracking a repository. A local one has to be tracked; for a remote one it makes no
    /// difference.
    pub fn remove_repository(&mut self, id: &RepositoryIdentifier) -> (removed: Result<
        (),
        RepoMetadataError,
    >)
        ensures
            final(self)@ == old(self)@.without(id@),
            match removed {
                Ok(_) => id@ is Remote || old(self)@.state(id@) is Some,
                Err(error) => {
                    &&& id@ is Local
                    &&& old(self)@.state(id@) is None
                    &&& error@ == MetadataErrorView::RepositoryNotFound
                },
            },
            match removed {
                Ok(_) => old(self)@.removal_error(id@) is None,
                Err(error) => old(self)@.removal_error(id@) == Some(error@),
            },
    {
        let removed = match id {
            RepositoryIdentifier::Local(path) => match self.local.remove(path) {
                Some(_) => Ok(()),
                None => Err(RepoMetadataError::RepositoryNotFound),
            },
            RepositoryIdentifier::Remote(remote_id) => {
                let _ = self.remote.remove(remote_id);
                Ok(())
            },
        };
        proof {
            assert(final(self)@.local =~= old(self)@.without(id@).local);
            assert(final(self)@.remote =~= old(self)@.without(id@).remote);
        }
        removed
    }

    /// Applies a directory-load response of a host. Unlike an incremental update it replaces the
    /// complete listing of immediate children of each directory that it lists, and marks that
    /// directory loaded. Nothing happens where the repository is not indexed.
    pub fn apply_remote_loaded_directory_update(
        &mut self,
        host_id: &HostId,
        update: &RepoMetadataUpdate,
    )
        ensures
            final(self)@ == old(self)@.with_loaded_directories(host_id@, update@),
            forall|other: RepositoryView|
                other != RepositoryView::Remote(
                    HostPathView { host: host_id@, path: update.repo_path@ },
                ) ==> final(self)@.state(other) == #[trigger] old(self)@.state(other),
            final(self)@.tree(
                RepositoryView::Remote(
                    HostPathView { host: host_id@, path: update.repo_path@ },
                ),
            ) matches Some(tree) ==> forall|j: int| #[trigger]
                listing::is_last_entry(update@.entries, j) && tree.listings.contains_key(
                    update@.entries[j].parent,
                ) ==> listing::holds_entry(tree, update@.entries, j),
    {
        let ghost before = self@;
        let id = RemoteRepositoryIdentifier {
            host_id: host_id.clone(),
            path: update.repo_path.clone(),
        };
        match self.remote.remove(&id) {
            Some(IndexedRepoState::Indexed(state)) => {
                let ghost tree = state.entry@;
                proof {
                    use_type_invariant(&state.entry);
                    assert forall|j: int| #[trigger]
                        listing::is_last_entry(update@.entries, j)
                            && tree.with_loaded_directories(
                            update@.entries,
                        ).listings.contains_key(
                            update@.entries[j].parent,
                        ) implies listing::holds_entry(
                        tree.with_loaded_directories(update@.entries),
                        update@.entries,
                        j,
                    ) by {
                        listing::loaded_directories_have_their_listings(tree, update@.entries, j);
                    }
                }
                let entry: FileTreeEntry = state.entry.load_directories(&update.update_entries);
                let _ = self.remote.insert(id, IndexedRepoState::Indexed(FileTreeState { entry }));
            },
            Some(state) => {
                let _ = self.remote.insert(id, state);
            },
            None => {},
        }
        proof {
            let next = before.with_loaded_directories(host_id@, update@);
            assert(self@.local =~= next.local);
            assert(self@.remote =~= next.remote);
        }
    }

    /// What a directory-load response of a host is reported as; nothing where the repository is
    /// not indexed.
    pub fn directory_load_event(&self, host_id: &HostId, update: &RepoMetadataUpdate) -> (event:
        Option<RepoMetadataEvent>)
        ensures
            ({
                let id = RepositoryView::Remote(
                    HostPathView { host: host_id@, path: update.repo_path@ },
                );
                match event {
                    Some(event) => {
                        &&& self@.tree(id) is Some
                        &&& event@ == (EventView::FileTreeEntryUpdated {
                            id,
                            update_type: UpdateTypeView::Replaced,
                        })
                    },
                    None => self@.tree(id) is None,
                }
            }),
    {
        let id = RepositoryIdentifier::Remote(
            RemoteRepositoryIdentifier {
                host_id: host_id.clone(),
                path: update.repo_path.clone(),
            },
        );
        match self.repository_state(&id) {
            Some(IndexedRepoState::Indexed(_)) => Some(
                RepoMetadataEvent::FileTreeEntryUpdated {
                    id,
                    update_type: MetadataUpdateType::Replaced,
                },
            ),
            _ => None,
        }
    }

    /// What the removal of a repository is reported as; nothing for one that is not tracked.
    pub fn removal_event(&self, id: &RepositoryIdentifier) -> (event: Option<RepoMetadataEvent>)
        ensures
            match event {
                Some(event) => {
                    &&& self@.state(id@) is Some
                    &&& event@ == (EventView::RepositoryRemoved { id: id@ })
                },
                None => self@.state(id@) is None,
            },
    {
        match self.repository_state(id) {
            Some(_) => Some(RepoMetadataEvent::RepositoryRemoved { id: id.clone() }),
            None => None,
        }
    }

    /// What the removal of a host's repositories is reported as: each repository that goes, once,
    /// in no particular order.
    pub fn removal_events_for_host(&self, host_id: &HostId) -> (events: Vec<RepoMetadataEvent>)
        ensures
            self@.reports_removals(
                self@.without_host(host_id@),
                event::event_views(events@),
            ),
    {
        let ids = self.remote.keys();
        let ghost keys = table::key_views(ids@);
        let ghost removal = |id: HostPathView|
            EventView::RepositoryRemoved { id: RepositoryView::Remote(id) };
        let ghost on_host = |id: HostPathView| id.host == host_id@;
        let mut events: Vec<RepoMetadataEvent> = Vec::new();
        assert(event::event_views(events@) =~= keys.take(0).filter(on_host).map_values(removal))
            by {
            reveal(Seq::filter);
        }
        let mut i: usize = 0;
        while i < ids.len()
            invariant
                i <= ids.len(),
                keys == table::key_views(ids@),
                on_host == (|id: HostPathView| id.host == host_id@),
                removal == (|id: HostPathView|
                    EventView::RepositoryRemoved { id: RepositoryView::Remote(id) }),
                event::event_views(events@) == keys.take(i as int).filter(on_host).map_values(
                    removal,
                ),
            decreases ids.len() - i,
        {
            let id: &RemoteRepositoryIdentifier = &ids[i];
            let ghost kept = keys.take(i as int).filter(on_host);
            proof {
                assert(keys.take(i + 1) =~= keys.take(i as int).push(id@));
                sequence::lemma_filter_push(keys.take(i as int), id@, on_host);
            }
            if &id.host_id == host_id {
                let ghost before = events@;
                events.push(
                    RepoMetadataEvent::RepositoryRemoved {
                        id: RepositoryIdentifier::Remote(id.clone()),
                    },
                );
                proof {
                    assert(event::event_views(events@) =~= event::event_views(before).push(
                        removal(id@),
                    ));
                    assert(kept.push(id@).map_values(removal) =~= kept.map_values(removal).push(
                        removal(id@),
                    ));
                }
            }
            i = i + 1;
        }
        proof {
            assert(keys.take(i as int) =~= keys);
            let kept = keys.filter(on_host);
            let views = event::event_views(events@);
            sequence::lemma_filter_no_duplicates(keys, on_host);
            assert forall|event: EventView<RepositoryView>| #[trigger]
                views.contains(event) <==> {
                    &&& event matches EventView::RepositoryRemoved { id }
                    &&& self@.state(id) is Some
                    &&& self@.without_host(host_id@).state(id) is None
                } by {
                if views.contains(event) {
                    let k = choose|k: int| 0 <= k < views.len() && views[k] == event;
                    keys.lemma_filter_pred(on_host, k);
                    keys.lemma_filter_contains_rev(on_host, kept[k]);
                    assert(keys.to_set().contains(kept[k]));
                }
                if let EventView::RepositoryRemoved { id: RepositoryView::Remote(id) } = event {
                    if self@.remote.contains_key(id) && id.host == host_id@ {
                        assert(keys.to_set().contains(id));
                        let k = choose|k: int| 0 <= k < keys.len() && keys[k] == id;
                        keys.lemma_filter_contains(on_host, k);
                        let n = choose|n: int| 0 <= n < kept.len() && kept[n] == id;
                        assert(views[n] == event);
                    }
                }
            }
            assert forall|a: int, b: int|
                0 <= a < views.len() && 0 <= b < views.len() && a != b implies views[a]
                != views[b] by {
                assert(kept[a] != kept[b]);
            }
        }
        events
    }

    /// The remote repositories that are tracked, each once, in no particular order.
    pub fn remote_repository_ids(&self) -> (ids: Vec<RemoteRepositoryIdentifier>)
        ensures
            event::remote_views(ids@).no_duplicates(),
            event::remote_views(ids@).to_set() == self@.remote.dom(),
    {
        let ids = self.remote.keys();
        proof {
            assert(event::remote_views(ids@) =~= table::key_views(ids@));
            assert(self@.remote.dom() =~= self.remote@.dom());
        }
        ids
    }

    /// The local repositories that are tracked, each once, in no particular order.
    pub fn local_repository_ids(&self) -> (ids: Vec<RepositoryIdentifier>)
        ensures
            event::repository_views(ids@).no_duplicates(),
            forall|id: RepositoryView|
                #![trigger event::repository_views(ids@).contains(id)]
                event::repository_views(ids@).contains(id) <==> id is Local && self@.state(id) is Some,
    {
        let paths = self.local.keys();
        let ghost keys = table::key_views(paths@);
        let mut ids: Vec<RepositoryIdentifier> = Vec::new();
        let mut i: usize = 0;
        while i < paths.len()
            invariant
                i <= paths.len(),
                ids@.len() == i,
                forall|k: int|
                    0 <= k < i ==> (#[trigger] ids@[k])@ == RepositoryView::Local(paths@[k]@),
            decreases paths.len() - i,
        {
            ids.push(RepositoryIdentifier::Local(paths[i].clone()));
            i = i + 1;
        }
        proof {
            let views = event::repository_views(ids@);
            assert forall|k: int| 0 <= k < views.len() implies #[trigger] views[k]
                == RepositoryView::Local(keys[k]) by {
                assert(ids@[k]@ == RepositoryView::Local(paths@[k]@));
            }
            assert forall|a: int, b: int|
                0 <= a < views.len() && 0 <= b < views.len() && a != b implies views[a]
                != views[b] by {
                assert(keys[a] != keys[b]);
            }
            assert forall|id: RepositoryView|
                #![trigger views.contains(id)]
                views.contains(id) <==> id is Local && self@.state(id) is Some by {
                if views.contains(id) {
                    let k = choose|k: int| 0 <= k < views.len() && views[k] == id;
                    assert(keys.to_set().contains(keys[k]));
                }
                if id is Local && self@.state(id) is Some {
                    assert(keys.to_set().contains(id->Local_0));
                    let k = choose|k: int| 0 <= k < keys.len() && keys[k] == id->Local_0;
                    assert(views[k] == id);
                }
            }
        }
        ids
    }

    /// The root of the local repository that a path lies in; of nested repositories the innermost.
    pub fn find_repository_for_path(&self, path: &StandardizedPath) -> (root: Option<
        StandardizedPath,
    >)
        ensures
            match root {
                Some(root) => self@.is_innermost_root(root@, path@),
                None => forall|root: PathView| #[trigger]
                    self@.local.contains_key(root) ==> !path::lies_in(path@, root),
            },
    {
        let roots = self.local.keys();
        let ghost keys = table::key_views(roots@);
        let mut best: Option<StandardizedPath> = None;
        let mut i: usize = 0;
        while i < roots.len()
            invariant
                i <= roots.len(),
                keys == table::key_views(roots@),
                keys.to_set() == self@.local.dom(),
                match best {
                    Some(root) => {
                        &&& self@.local.contains_key(root@)
                        &&& path::lies_in(path@, root@)
                        &&& forall|k: int|
                            0 <= k < i && path::lies_in(path@, #[trigger] keys[k])
                                ==> keys[k].components.len() <= root@.components.len()
                    },
                    None => forall|k: int| 0 <= k < i ==> !path::lies_in(path@, #[trigger] keys[k]),
                },
            decreases roots.len() - i,
        {
            let root: &StandardizedPath = &roots[i];
            proof {
                assert(keys[i as int] == root@);
                assert(keys.to_set().contains(keys[i as int]));
            }
            if path == root || path.is_strictly_below(root) {
                let deeper = match &best {
                    Some(known) => root.is_strictly_below(known),
                    None => true,
                };
                if deeper {
                    best = Some(root.clone());
                } else {
                    proof {
                        lemma_roots_of_a_path_are_nested(path@, root@, best->0@);
                    }
                }
            }
            i = i + 1;
        }
        proof {
            assert forall|root: PathView| #[trigger] self@.local.contains_key(
                root,
            ) implies keys.contains(root) by {
                assert(keys.to_set().contains(root));
            }
        }
        best
    }

    /// All repositories that are tracked, each once, the local ones before the remote ones.
    pub fn repository_ids(&self) -> (ids: Vec<RepositoryIdentifier>)
        ensures
            self@.is_roster(event::repository_views(ids@)),
    {
        let mut ids: Vec<RepositoryIdentifier> = self.local_repository_ids();
        let remote_ids: Vec<RemoteRepositoryIdentifier> = self.remote_repository_ids();
        let ghost here = event::repository_views(ids@);
        let ghost there = event::remote_views(remote_ids@);
        let mut i: usize = 0;
        while i < remote_ids.len()
            invariant
                i <= remote_ids.len(),
                ids@.len() == here.len() + i,
                forall|k: int| 0 <= k < here.len() ==> (#[trigger] ids@[k])@ == here[k],
                forall|k: int|
                    here.len() <= k < here.len() + i ==> (#[trigger] ids@[k])@
                        == RepositoryView::Remote(remote_ids@[k - here.len()]@),
            decreases remote_ids.len() - i,
        {
            ids.push(RepositoryIdentifier::Remote(remote_ids[i].clone()));
            i = i + 1;
        }
        proof {
            let views = event::repository_views(ids@);
            assert forall|k: int| 0 <= k < views.len() implies #[trigger] views[k] == if k
                < here.len() {
                here[k]
            } else {
                RepositoryView::Remote(there[k - here.len()])
            } by {
                assert(ids@[k]@ == views[k]);
            }
            assert forall|k: int| 0 <= k < here.len() implies #[trigger] here[k] is Local by {
                assert(here.contains(here[k]));
            }
            assert forall|a: int, b: int|
                0 <= a < views.len() && 0 <= b < views.len() && a != b implies views[a]
                != views[b] by {
                if a < here.len() && b < here.len() {
                    assert(here[a] != here[b]);
                } else if a >= here.len() && b >= here.len() {
                    assert(there[a - here.len()] != there[b - here.len()]);
                }
            }
            assert forall|id: RepositoryView|
                #![trigger views.contains(id)]
                views.contains(id) <==> self@.state(id) is Some by {
                if views.contains(id) {
                    let k = choose|k: int| 0 <= k < views.len() && views[k] == id;
                    if k < here.len() {
                        assert(here.contains(id));
                    } else {
                        assert(there.to_set().contains(there[k - here.len()]));
                    }
                }
                if self@.state(id) is Some {
                    match id {
                        RepositoryView::Local(_) => {
                            assert(here.contains(id));
                            let k = choose|k: int| 0 <= k < here.len() && here[k] == id;
                            assert(views[k] == id);
                        },
                        RepositoryView::Remote(remote) => {
                            assert(there.to_set().contains(remote));
                            let k = choose|k: int| 0 <= k < there.len() && there[k] == remote;
                            assert(views[here.len() + k] == id);
                        },
                    }
                }
            }
        }
        ids
    }

    /// Stops tracking the repositories of a host, for instance when it disconnects.
    pub fn remove_remote_repositories_for_host(&mut self, host_id: &HostId)
        ensures
            final(self)@ == old(self)@.without_host(host_id@),
    {
        let ghost before = self@;
        let ids = self.remote.keys();
        let ghost keys = table::key_views(ids@);
        let mut i: usize = 0;
        while i < ids.len()
            invariant
                i <= ids.len(),
                keys == table::key_views(ids@),
                keys.to_set() == before.remote.dom(),
                self@.local == before.local,
                self@.emits_incremental_updates == before.emits_incremental_updates,
                forall|id: HostPathView|
                    #![trigger self@.remote.contains_key(id)]
                    self@.remote.contains_key(id) <==> before.remote.contains_key(id) && !(id.host
                        == host_id@ && keys.take(i as int).contains(id)),
                forall|id: HostPathView| #[trigger]
                    self@.remote.contains_key(id) ==> self@.remote[id] == before.remote[id],
            decreases ids.len() - i,
        {
            let ghost earlier = self@;
            proof {
                assert(keys.take(i + 1) =~= keys.take(i as int).push(keys[i as int]));
                assert forall|id: HostPathView| #[trigger] keys.take(i + 1).contains(id) <==> keys.take(
                    i as int,
                ).contains(id) || id == keys[i as int] by {
                    if id == keys[i as int] {
                        assert(keys.take(i + 1)[i as int] == id);
                    }
                    if keys.take(i as int).contains(id) {
                        let k = choose|k: int| 0 <= k < i && keys.take(i as int)[k] == id;
                        assert(keys.take(i + 1)[k] == id);
                    }
                }
            }
            if &ids[i].host_id == host_id {
                let _ = self.remote.remove(&ids[i]);
                assert(self@.remote =~= earlier.remote.remove(keys[i as int]));
            }
            i = i + 1;
        }
        proof {
            assert(keys.take(i as int) =~= keys);
            assert forall|id: HostPathView| before.remote.contains_key(
                id,
            ) implies #[trigger] keys.contains(id) by {
                assert(keys.to_set().contains(id));
            }
            assert(self@.remote =~= before.without_host(host_id@).remote);
        }
    }
}

} // verus!
