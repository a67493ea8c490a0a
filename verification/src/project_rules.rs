//! Keeping the rules of projects in step with the metadata of their repositories.
//!
//! Whenever a repository changes, the files that hold its rules are looked for anew, in the
//! background. Each search gets a number of its own, and only what the latest search of a
//! repository finds is put into effect.

use vstd::prelude::*;

use crate::event::{EventView, RepoMetadataEvent};
use crate::event;
use crate::identifier::{
    HostId, HostPathView, LocalOrRemotePath, LocationView, RemotePath, RemoteRepositoryIdentifier,
    RepositoryIdentifier, RepositoryView,
};
use crate::model::RepoMetadataModel;
use crate::model;
use crate::node::{NodeView, OwnedRepoContent};
use crate::node;
use crate::path::{PathEncoding, PathView};
use crate::proto::FileContextView;
use crate::proto;
use crate::query::{
    QueryErrorView, QueryView, RepoContentsQueryBudget, RepoContentsQueryError, RepoMetadataQuery,
};
use crate::query;
use crate::repo_metadata_proto::{
    proto_query_repo_metadata_response_to_contents, repo_metadata_query_to_proto,
};
use crate::repo_metadata_proto;
use crate::sequence;
use crate::table::Table;
use crate::text;
use crate::update::{UpdateTypeView, UpdateView};

verus! {

/// How many entries a search for rules may scan.
pub const PROJECT_RULE_MAX_ENTRIES_SCANNED: usize = 100_000;

/// What a [`MetadataProjectRulesModel`] keeps.
#[verifier::ext_equal]
pub struct RulesView {
    /// The number of the latest search of each repository.
    pub generations: Map<RepositoryView, u64>,
    /// How many searches have been started.
    pub started: u64,
}

impl RulesView {
    /// What holds of every model: the numbers come from searches that were started, and no two
    /// searches have the same number.
    pub open spec fn valid(self) -> bool {
        &&& forall|id: RepositoryView| #[trigger]
            self.generations.contains_key(id) ==> self.generations[id] <= self.started
        &&& forall|a: RepositoryView, b: RepositoryView|
            #![trigger self.generations.contains_key(a), self.generations.contains_key(b)]
            self.generations.contains_key(a) && self.generations.contains_key(b)
                && self.generations[a] == self.generations[b] ==> a == b
    }

    /// Whether a search is the latest of its repository.
    pub open spec fn is_current(self, id: RepositoryView, generation: u64) -> bool {
        self.generations.contains_key(id) && self.generations[id] == generation
    }

    /// The model with one more search of a repository started.
    pub open spec fn advanced(self, id: RepositoryView) -> RulesView {
        RulesView {
            generations: self.generations.insert(id, (self.started + 1) as u64),
            started: (self.started + 1) as u64,
        }
    }

    /// The model with one search started for each of the repositories, one after the other.
    pub open spec fn advanced_all(self, ids: Seq<RepositoryView>) -> RulesView
        decreases ids.len(),
    {
        if ids.len() == 0 {
            self
        } else {
            self.advanced_all(ids.drop_last()).advanced(ids.last())
        }
    }

    /// The model with a repository forgotten.
    pub open spec fn without(self, id: RepositoryView) -> RulesView {
        RulesView { generations: self.generations.remove(id), ..self }
    }
}

/// Starting a search keeps the model valid.
pub proof fn advancing_keeps_validity(rules: RulesView, id: RepositoryView)
    requires
        rules.valid(),
        rules.started < u64::MAX,
    ensures
        rules.advanced(id).valid(),
{
    let advanced = rules.advanced(id);
    assert forall|other: RepositoryView| #[trigger]
        advanced.generations.contains_key(other) implies advanced.generations[other]
        <= advanced.started by {
        if other != id {
            assert(rules.generations.contains_key(other));
        }
    }
    assert forall|a: RepositoryView, b: RepositoryView|
        #![trigger advanced.generations.contains_key(a), advanced.generations.contains_key(b)]
        advanced.generations.contains_key(a) && advanced.generations.contains_key(b)
            && advanced.generations[a] == advanced.generations[b] implies a == b by {
        if a != id {
            assert(rules.generations.contains_key(a));
        }
        if b != id {
            assert(rules.generations.contains_key(b));
        }
    }
}

/// A new search of a repository outdates every earlier one.
pub proof fn newer_search_supersedes(rules: RulesView, id: RepositoryView, generation: u64)
    requires
        rules.valid(),
        rules.started < u64::MAX,
        generation <= rules.started,
    ensures
        !rules.advanced(id).is_current(id, generation),
        rules.advanced(id).is_current(id, (rules.started + 1) as u64),
{
}

/// No search of a repository is the latest any more once the repository has been removed, and
/// none of them is again when the repository comes back.
pub proof fn removal_outdates_every_search(rules: RulesView, id: RepositoryView, generation: u64)
    requires
        rules.valid(),
        rules.started < u64::MAX,
        generation <= rules.started,
    ensures
        !rules.without(id).is_current(id, generation),
        !rules.without(id).advanced(id).is_current(id, generation),
{
}

/// Searches and removals of one repository leave the searches of every other one alone.
pub proof fn searches_are_independent(
    rules: RulesView,
    id: RepositoryView,
    other: RepositoryView,
    generation: u64,
)
    requires
        id != other,
    ensures
        rules.advanced(id).is_current(other, generation) == rules.is_current(other, generation),
        rules.without(id).is_current(other, generation) == rules.is_current(other, generation),
{
}

/// A number belongs to one repository at most.
pub proof fn search_numbers_are_unique(
    rules: RulesView,
    a: RepositoryView,
    b: RepositoryView,
    generation: u64,
)
    requires
        rules.valid(),
        rules.is_current(a, generation),
        rules.is_current(b, generation),
    ensures
        a == b,
{
}

/// What can happen to the searches of a model.
pub enum SearchChange {
    Started { id: RepositoryView },
    Removed { id: RepositoryView },
}

impl SearchChange {
    /// The repository that the change is about.
    pub open spec fn id(self) -> RepositoryView {
        match self {
            SearchChange::Started { id } => id,
            SearchChange::Removed { id } => id,
        }
    }
}

impl RulesView {
    /// The model after some changes, one after the other.
    pub open spec fn after(self, changes: Seq<SearchChange>) -> RulesView
        decreases changes.len(),
    {
        if changes.len() == 0 {
            self
        } else {
            let before = self.after(changes.drop_last());
            match changes.last() {
                SearchChange::Started { id } => before.advanced(id),
                SearchChange::Removed { id } => before.without(id),
            }
        }
    }
}

/// Whatever happens after a search was started, it is the latest of its repository exactly as
/// long as nothing has happened to that repository: no other search of it was started, and it was
/// not removed.
pub proof fn only_the_latest_search_takes_effect(
    rules: RulesView,
    changes: Seq<SearchChange>,
    id: RepositoryView,
    generation: u64,
)
    requires
        generation <= rules.started,
        rules.started + changes.len() <= u64::MAX,
    ensures
        rules.after(changes).is_current(id, generation) <==> {
            &&& rules.is_current(id, generation)
            &&& forall|i: int| 0 <= i < changes.len() ==> (#[trigger] changes[i]).id() != id
        },
        rules.started <= rules.after(changes).started <= rules.started + changes.len(),
    decreases changes.len(),
{
    if changes.len() > 0 {
        let front = changes.drop_last();
        only_the_latest_search_takes_effect(rules, front, id, generation);
        assert(changes[changes.len() - 1] == changes.last());
        assert forall|i: int| 0 <= i < front.len() implies (#[trigger] front[i]).id()
            == changes[i].id() by {}
        if forall|i: int| 0 <= i < front.len() ==> (#[trigger] front[i]).id() != id {
            assert forall|i: int| 0 <= i < changes.len() - 1 implies (
            #[trigger] changes[i]).id() != id by {
                assert(front[i].id() != id);
            }
        }
    }
}

/// What searches for rules ask for.
pub open spec fn rule_query() -> QueryView {
    QueryView::FilesNamed { names: seq!["WARP.md"@, "AGENTS.md"@] }
}

/// A search for the rules of a repository.
#[verifier::ext_equal]
pub struct SearchView {
    pub id: RepositoryView,
    pub generation: u64,
    pub root: LocationView,
    pub query: QueryView,
    pub budget: RepoContentsQueryBudget,
}

/// What is to be done about the rules of a repository.
#[verifier::ext_equal]
pub enum RulesActionView {
    Search(SearchView),
    Clear(LocationView),
}

/// The search for the rules of a repository; `None` where the repository cannot be reached.
pub open spec fn search(id: RepositoryView, generation: u64, local: PathEncoding) -> Option<
    SearchView,
> {
    match id.location(local) {
        Some(root) => Some(
            SearchView {
                id,
                generation,
                root,
                query: rule_query(),
                budget: RepoContentsQueryBudget {
                    max_entries_scanned: PROJECT_RULE_MAX_ENTRIES_SCANNED,
                },
            },
        ),
        None => None,
    }
}

/// The searches for the rules of some repositories, after `started` searches.
pub open spec fn searches(ids: Seq<RepositoryView>, started: int, local: PathEncoding) -> Seq<
    RulesActionView,
>
    decreases ids.len(),
{
    if ids.len() == 0 {
        Seq::empty()
    } else {
        let before = searches(ids.drop_last(), started, local);
        match search(ids.last(), (started + ids.len()) as u64, local) {
            Some(search) => before.push(RulesActionView::Search(search)),
            None => before,
        }
    }
}

/// The repositories whose rules an event calls for a search of.
pub open spec fn repositories_to_search(event: EventView<RepositoryView>) -> Seq<RepositoryView> {
    match event {
        EventView::RepositoryUpdated { id } => seq![id],
        EventView::FileTreeEntryUpdated { id, .. } => seq![id],
        EventView::FileTreeUpdated { ids } => ids,
        _ => Seq::empty(),
    }
}

/// Searches for rules ask for the files called `WARP.md` and `AGENTS.md`, wherever they are, and
/// for nothing else.
pub proof fn rule_files_are_known_by_name(path: PathView, is_directory: bool)
    ensures
        query::query_matches(path, is_directory, rule_query()) <==> {
            &&& !is_directory
            &&& path.components.len() > 0
            &&& path.components.last() == "WARP.md"@ || path.components.last() == "AGENTS.md"@
        },
{
    let names = seq!["WARP.md"@, "AGENTS.md"@];
    assert(names[0] == "WARP.md"@ && names[1] == "AGENTS.md"@);
}

/// A search for the rules of a repository is for that repository, at the place that it is reached
/// at, under the number that it was given, and goes through a hundred thousand entries at most; a
/// repository that cannot be reached is not searched.
pub proof fn searches_are_for_their_repository(
    id: RepositoryView,
    generation: u64,
    local: PathEncoding,
)
    ensures
        search(id, generation, local) is Some <==> id.location(local) is Some,
        search(id, generation, local) matches Some(search) ==> {
            &&& search.id == id
            &&& search.generation == generation
            &&& id.location(local) == Some(search.root)
            &&& search.query == rule_query()
            &&& search.budget.max_entries_scanned == 100_000
        },
{
}

/// Searches that are started together are numbered one after the other, in the order of the
/// repositories: the number of the last is the number of searches started until then. A repository
/// that cannot be reached takes its number and is not searched.
pub proof fn searches_are_numbered_in_order(
    ids: Seq<RepositoryView>,
    id: RepositoryView,
    started: int,
    local: PathEncoding,
)
    requires
        0 <= started,
        started + ids.len() + 1 <= u64::MAX,
    ensures
        searches(Seq::empty(), started, local).len() == 0,
        id.location(local) is None ==> searches(ids.push(id), started, local) == searches(
            ids,
            started,
            local,
        ),
        id.location(local) matches Some(root) ==> {
            let before = searches(ids, started, local);
            let after = searches(ids.push(id), started, local);
            &&& after.len() == before.len() + 1
            &&& after.take(before.len() as int) == before
            &&& after.last() matches RulesActionView::Search(search)
            &&& search.id == id
            &&& search.generation == started + ids.len() + 1
            &&& search.root == root
            &&& search.query == rule_query()
            &&& search.budget.max_entries_scanned == 100_000
        },
{
    assert(ids.push(id).drop_last() =~= ids);
    let before = searches(ids, started, local);
    if id.location(local) is Some {
        let after = searches(ids.push(id), started, local);
        assert(after.take(before.len() as int) =~= before);
    }
}

/// Starting searches of some repositories counts every one of them; each repository is left with
/// the number of the last search of it, and a repository that is not among them keeps its number.
pub proof fn started_searches_are_counted(
    rules: RulesView,
    ids: Seq<RepositoryView>,
    id: RepositoryView,
    other: RepositoryView,
)
    requires
        rules.started + ids.len() + 1 <= u64::MAX,
    ensures
        rules.advanced_all(ids).started == rules.started + ids.len(),
        rules.advanced_all(Seq::empty()) == rules,
        rules.advanced_all(ids.push(id)).generations.contains_key(id),
        rules.advanced_all(ids.push(id)).generations[id] == rules.started + ids.len() + 1,
        other != id ==> {
            let before = rules.advanced_all(ids).generations;
            let after = rules.advanced_all(ids.push(id)).generations;
            &&& after.contains_key(other) == before.contains_key(other)
            &&& before.contains_key(other) ==> after[other] == before[other]
        },
        !ids.contains(id) ==> {
            &&& rules.advanced_all(ids).generations.contains_key(id)
                == rules.generations.contains_key(id)
            &&& rules.generations.contains_key(id) ==> rules.advanced_all(ids).generations[id]
                == rules.generations[id]
        },
    decreases ids.len(),
{
    let none = Seq::<RepositoryView>::empty();
    assert(rules.advanced_all(none) == rules);
    assert(ids.push(id).drop_last() =~= ids);
    assert(ids.push(id).last() == id);
    assert(rules.advanced_all(ids.push(id)) == rules.advanced_all(ids).advanced(id));
    if ids.len() == 0 {
        assert(ids =~= none);
    } else {
        let front = ids.drop_last();
        started_searches_are_counted(rules, front, id, other);
        assert(rules.advanced_all(ids) == rules.advanced_all(front).advanced(ids.last()));
        assert(ids[ids.len() - 1] == ids.last());
        if front.contains(id) {
            let k = choose|k: int| 0 <= k < front.len() && front[k] == id;
            assert(ids[k] == id);
        }
    }
}

/// Every change of one repository, whatever is known of the change, starts one search of it: the
/// search is the latest, all earlier ones are outdated, other repositories keep their searches,
/// and the search is carried out where the repository can be reached.
pub proof fn every_change_starts_a_search(
    rules: RulesView,
    id: RepositoryView,
    update_type: UpdateTypeView,
    local: PathEncoding,
    other: RepositoryView,
    generation: u64,
)
    requires
        rules.started < u64::MAX,
        other != id,
    ensures
        ({
            let updated = EventView::RepositoryUpdated { id };
            let entry = EventView::FileTreeEntryUpdated { id, update_type };
            let ids = repositories_to_search(entry);
            let next = rules.advanced_all(ids);
            &&& repositories_to_search(updated) == ids
            &&& next.started == rules.started + 1
            &&& next.is_current(id, generation) <==> generation == rules.started + 1
            &&& next.is_current(other, generation) == rules.is_current(other, generation)
            &&& match id.location(local) {
                Some(root) => {
                    &&& searches(ids, rules.started as int, local).len() == 1
                    &&& searches(ids, rules.started as int, local)[0] matches
                        RulesActionView::Search(search)
                    &&& search.id == id
                    &&& search.generation == rules.started + 1
                    &&& search.root == root
                    &&& search.query == rule_query()
                },
                None => searches(ids, rules.started as int, local).len() == 0,
            }
        }),
{
    let ids = repositories_to_search(EventView::FileTreeEntryUpdated { id, update_type });
    let none = Seq::<RepositoryView>::empty();
    assert(ids =~= none.push(id));
    started_searches_are_counted(rules, none, id, other);
    searches_are_numbered_in_order(none, id, rules.started as int, local);
}

/// A change of several trees starts one search for each of them, in their order, exactly as
/// changes of the one after the other would; a failed update, and a change that is ready to be
/// sent, start none.
pub proof fn events_search_the_repositories_that_they_name(
    ids: Seq<RepositoryView>,
    id: RepositoryView,
    update: UpdateView,
    update_type: UpdateTypeView,
    i: int,
)
    ensures
        repositories_to_search(EventView::FileTreeUpdated { ids }).len() == ids.len(),
        0 <= i < ids.len() ==> repositories_to_search(EventView::FileTreeUpdated { ids })[i]
            == ids[i],
        repositories_to_search(EventView::FileTreeUpdated { ids: seq![id] })
            =~= repositories_to_search(EventView::FileTreeEntryUpdated { id, update_type }),
        repositories_to_search(EventView::UpdatingRepositoryFailed { id }).len() == 0,
        repositories_to_search(EventView::IncrementalUpdateReady { update }).len() == 0,
        repositories_to_search(EventView::RepositoryRemoved { id }).len() == 0,
{
}

/// Forgetting a repository forgets the number of its searches and nothing else.
pub proof fn forgetting_touches_one_repository(
    rules: RulesView,
    id: RepositoryView,
    other: RepositoryView,
    generation: u64,
)
    requires
        other != id,
    ensures
        !rules.without(id).is_current(id, generation),
        rules.without(id).started == rules.started,
        rules.without(id).generations.contains_key(other) == rules.generations.contains_key(other),
        rules.generations.contains_key(other) ==> rules.without(id).generations[other]
            == rules.generations[other],
{
}

/// A search is the latest of its repository exactly if its number is the one that was given out
/// last for that repository.
pub proof fn latest_search_has_the_last_number(
    rules: RulesView,
    id: RepositoryView,
    generation: u64,
)
    requires
        rules.started < u64::MAX,
    ensures
        rules.advanced(id).is_current(id, generation) <==> generation == rules.started + 1,
        rules.is_current(id, generation) ==> rules.generations.contains_key(id)
            && rules.generations[id] == generation,
        rules.generations.contains_key(id) ==> rules.is_current(id, rules.generations[id]),
{
}

/// A search for the rules of a repository.
#[derive(Debug)]
pub struct RuleSearch {
    pub repo_id: RepositoryIdentifier,
    pub generation: u64,
    pub root_path: LocalOrRemotePath,
    pub query: RepoMetadataQuery,
    pub budget: RepoContentsQueryBudget,
}

/// What is to be done about the rules of a repository.
#[derive(Debug)]
pub enum RulesAction {
    /// Search for them.
    Search(RuleSearch),
    /// Drop those that came from the given place.
    Clear(LocalOrRemotePath),
}

impl View for RuleSearch {
    type V = SearchView;

    open spec fn view(&self) -> SearchView {
        SearchView {
            id: self.repo_id@,
            generation: self.generation,
            root: self.root_path@,
            query: self.query@,
            budget: self.budget,
        }
    }
}

impl View for RulesAction {
    type V = RulesActionView;

    open spec fn view(&self) -> RulesActionView {
        match self {
            RulesAction::Search(search) => RulesActionView::Search(search@),
            RulesAction::Clear(root) => RulesActionView::Clear(root@),
        }
    }
}

/// What is to be done, one after the other.
pub open spec fn action_views(actions: Seq<RulesAction>) -> Seq<RulesActionView> {
    actions.map_values(|action: RulesAction| action@)
}

/// Searches and actions say what stands in their fields.
pub proof fn actions_keep_every_field(search: RuleSearch, root: LocalOrRemotePath)
    ensures
        search@.id == search.repo_id@,
        search@.generation == search.generation,
        search@.root == search.root_path@,
        search@.query == search.query@,
        search@.budget == search.budget,
        RulesAction::Search(search)@ == RulesActionView::Search(search@),
        RulesAction::Clear(root)@ == RulesActionView::Clear(root@),
{
}

/// Asks for the files that can hold the rules of a project.
pub fn project_rule_query() -> (query: RepoMetadataQuery)
    ensures
        query@ == rule_query(),
{
    let mut names: Vec<String> = Vec::new();
    names.push("WARP.md".to_owned());
    names.push("AGENTS.md".to_owned());
    assert(text::texts(names@) =~= seq!["WARP.md"@, "AGENTS.md"@]);
    RepoMetadataQuery::FilesNamed { names }
}

/// Keeps count of the searches for the rules of projects.
#[derive(Debug)]
pub struct MetadataProjectRulesModel {
    refresh_generations: Table<RepositoryIdentifier, u64>,
    next_refresh_generation: u64,
}

impl View for MetadataProjectRulesModel {
    type V = RulesView;

    closed spec fn view(&self) -> RulesView {
        RulesView {
            generations: self.refresh_generations@,
            started: self.next_refresh_generation,
        }
    }
}

impl MetadataProjectRulesModel {
    /// Holds of every model.
    #[verifier::type_invariant]
    pub open spec fn well_formed(&self) -> bool {
        self@.valid()
    }

    /// A model that has started no search.
    pub fn empty() -> (rules: MetadataProjectRulesModel)
        ensures
            rules@ == (RulesView { generations: Map::empty(), started: 0 }),
    {
        MetadataProjectRulesModel {
            refresh_generations: Table::new(),
            next_refresh_generation: 0,
        }
    }

    /// A model for the repositories that are known already, and the searches for their rules.
    pub fn new(repo_metadata: &RepoMetadataModel, local: PathEncoding) -> (result: (
        MetadataProjectRulesModel,
        Vec<RulesAction>,
    ))
        ensures
            exists|ids: Seq<RepositoryView>| #[trigger]
                repo_metadata@.is_roster(ids) && {
                    let nothing = RulesView { generations: Map::empty(), started: 0 };
                    &&& result.0@ == nothing.advanced_all(ids)
                    &&& action_views(result.1@) == searches(ids, 0, local)
                },
    {
        let repo_ids: Vec<RepositoryIdentifier> = repo_metadata.repository_ids();
        let mut rules = MetadataProjectRulesModel::empty();
        assert(repo_ids.len() <= u64::MAX);
        let actions = rules.refresh_project_rules_for_repos(&repo_ids, local);
        assert(repo_metadata@.is_roster(event::repository_views(repo_ids@)));
        (rules, actions)
    }

    /// How many searches have been started.
    pub fn searches_started(&self) -> (started: u64)
        ensures
            started == self@.started,
    {
        self.next_refresh_generation
    }

    /// Starts a search of a repository and gives back its number.
    pub fn advance_refresh_generation(&mut self, repo_id: &RepositoryIdentifier) -> (generation:
        u64)
        requires
            old(self)@.started < u64::MAX,
        ensures
            final(self)@ == old(self)@.advanced(repo_id@),
            generation == old(self)@.started + 1,
    {
        proof {
            use_type_invariant(&*self);
            advancing_keeps_validity(self@, repo_id@);
        }
        let mut generations: Table<RepositoryIdentifier, u64> = Table::new();
        std::mem::swap(&mut generations, &mut self.refresh_generations);
        let generation: u64 = self.next_refresh_generation + 1;
        let _ = generations.insert(repo_id.clone(), generation);
        self.next_refresh_generation = generation;
        self.refresh_generations = generations;
        generation
    }

    /// Whether a search is the latest of its repository.
    pub fn is_current(&self, repo_id: &RepositoryIdentifier, generation: u64) -> (current: bool)
        ensures
            current == self@.is_current(repo_id@, generation),
    {
        match self.refresh_generations.get(repo_id) {
            Some(latest) => *latest == generation,
            None => false,
        }
    }

    /// Starts a search for the rules of a repository. The search counts also where the repository
    /// cannot be reached and there is nothing to search.
    pub fn refresh_project_rules_for_repo(
        &mut self,
        repo_id: &RepositoryIdentifier,
        local: PathEncoding,
    ) -> (found: Option<RuleSearch>)
        requires
            old(self)@.started < u64::MAX,
        ensures
            final(self)@ == old(self)@.advanced(repo_id@),
            ({
                let expected = search(repo_id@, (old(self)@.started + 1) as u64, local);
                match found {
                    Some(found) => expected == Some(found@),
                    None => expected is None,
                }
            }),
    {
        let generation: u64 = self.advance_refresh_generation(repo_id);
        match repo_id.to_local_or_remote_path(local) {
            Some(root_path) => Some(
                RuleSearch {
                    repo_id: repo_id.clone(),
                    generation,
                    root_path,
                    query: project_rule_query(),
                    budget: RepoContentsQueryBudget {
                        max_entries_scanned: PROJECT_RULE_MAX_ENTRIES_SCANNED,
                    },
                },
            ),
            None => None,
        }
    }

    /// Starts a search for the rules of each of the repositories, one after the other.
    fn refresh_project_rules_for_repos(
        &mut self,
        repo_ids: &Vec<RepositoryIdentifier>,
        local: PathEncoding,
    ) -> (actions: Vec<RulesAction>)
        requires
            old(self)@.started + repo_ids@.len() <= u64::MAX,
        ensures
            final(self)@ == old(self)@.advanced_all(event::repository_views(repo_ids@)),
            final(self)@.started == old(self)@.started + repo_ids@.len(),
            action_views(actions@) == searches(
                event::repository_views(repo_ids@),
                old(self)@.started as int,
                local,
            ),
    {
        let ghost before = self@;
        let ghost ids = event::repository_views(repo_ids@);
        let mut actions: Vec<RulesAction> = Vec::new();
        let mut i: usize = 0;
        assert(action_views(actions@) =~= searches(ids.take(0), before.started as int, local));
        while i < repo_ids.len()
            invariant
                i <= repo_ids.len(),
                ids == event::repository_views(repo_ids@),
                before.started + repo_ids@.len() <= u64::MAX,
                self@ == before.advanced_all(ids.take(i as int)),
                self@.started == before.started + i,
                action_views(actions@) == searches(
                    ids.take(i as int),
                    before.started as int,
                    local,
                ),
            decreases repo_ids.len() - i,
        {
            let ghost known = action_views(actions@);
            proof {
                assert(ids.take(i + 1).drop_last() =~= ids.take(i as int));
                assert(ids.take(i + 1).last() == ids[i as int]);
            }
            if let Some(search) = self.refresh_project_rules_for_repo(&repo_ids[i], local) {
                actions.push(RulesAction::Search(search));
                assert(action_views(actions@) =~= known.push(RulesActionView::Search(search@)));
            }
            i = i + 1;
        }
        assert(ids.take(i as int) =~= ids);
        actions
    }

    /// Forgets a repository, so that nothing a search of it still finds is put into effect, and
    /// gives back the place whose rules are to be dropped; `None` where it cannot be reached.
    pub fn clear_project_rules_for_removed_repository(
        &mut self,
        repo_id: &RepositoryIdentifier,
        local: PathEncoding,
    ) -> (root_path: Option<LocalOrRemotePath>)
        ensures
            final(self)@ == old(self)@.without(repo_id@),
            match root_path {
                Some(root_path) => repo_id@.location(local) == Some(root_path@),
                None => repo_id@.location(local) is None,
            },
    {
        proof {
            use_type_invariant(&*self);
        }
        let ghost before = self@;
        let mut generations: Table<RepositoryIdentifier, u64> = Table::new();
        std::mem::swap(&mut generations, &mut self.refresh_generations);
        let _ = generations.remove(repo_id);
        assert(before.without(repo_id@).valid()) by {
            let rest = before.without(repo_id@);
            assert forall|id: RepositoryView| #[trigger]
                rest.generations.contains_key(id) implies rest.generations[id] <= rest.started by {
                assert(before.generations.contains_key(id));
            }
            assert forall|a: RepositoryView, b: RepositoryView|
                #![trigger rest.generations.contains_key(a), rest.generations.contains_key(b)]
                rest.generations.contains_key(a) && rest.generations.contains_key(b)
                    && rest.generations[a] == rest.generations[b] implies a == b by {
                assert(before.generations.contains_key(a) && before.generations.contains_key(b));
            }
        }
        self.refresh_generations = generations;
        repo_id.to_local_or_remote_path(local)
    }

    /// Takes note of an event and gives back what is to be done about rules.
    pub fn handle_repo_metadata_event(&mut self, event: &RepoMetadataEvent, local: PathEncoding) -> (
    actions: Vec<RulesAction>)
        requires
            old(self)@.started + repositories_to_search(event@).len() <= u64::MAX,
        ensures
            match event@ {
                EventView::RepositoryRemoved { id } => {
                    &&& final(self)@ == old(self)@.without(id)
                    &&& action_views(actions@) == match id.location(local) {
                        Some(root) => seq![RulesActionView::Clear(root)],
                        None => Seq::empty(),
                    }
                },
                _ => {
                    let ids = repositories_to_search(event@);
                    &&& final(self)@ == old(self)@.advanced_all(ids)
                    &&& action_views(actions@) == searches(ids, old(self)@.started as int, local)
                },
            },
            match *event {
                RepoMetadataEvent::RepositoryUpdated { id }
                | RepoMetadataEvent::FileTreeEntryUpdated { id, .. } => {
                    &&& final(self)@.started == old(self)@.started + 1
                    &&& final(self)@.generations == old(self)@.generations.insert(
                        id@,
                        final(self)@.started,
                    )
                    &&& match id@.location(local) {
                        Some(root) => {
                            &&& actions@.len() == 1
                            &&& actions@[0] matches RulesAction::Search(search)
                            &&& search.repo_id@ == id@
                            &&& search.generation == final(self)@.started
                            &&& search.root_path@ == root
                            &&& search.query@ == rule_query()
                            &&& search.budget.max_entries_scanned == 100_000
                        },
                        None => actions@.len() == 0,
                    }
                },
                RepoMetadataEvent::FileTreeUpdated { ids } => {
                    final(self)@.started == old(self)@.started + ids@.len()
                },
                RepoMetadataEvent::RepositoryRemoved { id } => {
                    &&& final(self)@.started == old(self)@.started
                    &&& final(self)@.generations == old(self)@.generations.remove(id@)
                },
                RepoMetadataEvent::UpdatingRepositoryFailed { .. }
                | RepoMetadataEvent::IncrementalUpdateReady { .. } => {
                    &&& final(self)@ == old(self)@
                    &&& actions@.len() == 0
                },
            },
    {
        match event {
            RepoMetadataEvent::RepositoryUpdated { id } => {
                self.refresh_one(id, local)
            },
            RepoMetadataEvent::FileTreeEntryUpdated { id, .. } => {
                self.refresh_one(id, local)
            },
            RepoMetadataEvent::FileTreeUpdated { ids } => {
                self.refresh_project_rules_for_repos(ids, local)
            },
            RepoMetadataEvent::RepositoryRemoved { id } => {
                let mut actions: Vec<RulesAction> = Vec::new();
                assert(action_views(actions@) =~= Seq::empty());
                if let Some(root) = self.clear_project_rules_for_removed_repository(id, local) {
                    actions.push(RulesAction::Clear(root));
                    assert(action_views(actions@) =~= seq![RulesActionView::Clear(root@)]);
                }
                actions
            },
            RepoMetadataEvent::UpdatingRepositoryFailed { .. } => {
                let actions: Vec<RulesAction> = Vec::new();
                assert(action_views(actions@) =~= Seq::empty());
                actions
            },
            RepoMetadataEvent::IncrementalUpdateReady { .. } => {
                let actions: Vec<RulesAction> = Vec::new();
                assert(action_views(actions@) =~= Seq::empty());
                actions
            },
        }
    }

    /// Starts a search for the rules of one repository.
    fn refresh_one(&mut self, repo_id: &RepositoryIdentifier, local: PathEncoding) -> (actions: Vec<
        RulesAction,
    >)
        requires
            old(self)@.started < u64::MAX,
        ensures
            final(self)@ == old(self)@.advanced_all(seq![repo_id@]),
            action_views(actions@) == searches(
                seq![repo_id@],
                old(self)@.started as int,
                local,
            ),
            final(self)@ == old(self)@.advanced(repo_id@),
            match repo_id@.location(local) {
                Some(root) => {
                    &&& actions@.len() == 1
                    &&& actions@[0] matches RulesAction::Search(search)
                    &&& search.repo_id@ == repo_id@
                    &&& search.generation == old(self)@.started + 1
                    &&& search.root_path@ == root
                    &&& search.query@ == rule_query()
                    &&& search.budget.max_entries_scanned == 100_000
                },
                None => actions@.len() == 0,
            },
    {
        proof {
            let none = Seq::<RepositoryView>::empty();
            assert(seq![repo_id@] =~= none.push(repo_id@));
            assert(seq![repo_id@].drop_last() =~= none);
            searches_are_numbered_in_order(none, repo_id@, self@.started as int, local);
            assert(self@.advanced_all(none) == self@);
            assert(self@.advanced_all(seq![repo_id@]) == self@.advanced(repo_id@));
        }
        let mut repo_ids: Vec<RepositoryIdentifier> = Vec::new();
        repo_ids.push(repo_id.clone());
        assert(event::repository_views(repo_ids@) =~= seq![repo_id@]);
        let actions = self.refresh_project_rules_for_repos(&repo_ids, local);
        proof {
            assert(action_views(actions@).len() == actions@.len());
            if actions@.len() == 1 {
                assert(action_views(actions@)[0] == actions@[0]@);
            }
        }
        actions
    }
}

/// Where a file that a search found is, as a machine with `local` paths reaches it; `None` for
/// what is no file, and for a file of a local repository whose path the machine cannot write.
pub open spec fn rule_location(id: RepositoryView, node: NodeView, local: PathEncoding) -> Option<
    LocationView,
> {
    match node {
        NodeView::Directory { .. } => None,
        NodeView::File { path, .. } => match id {
            RepositoryView::Local(_) => if path.root.spec_encoding() == local {
                Some(LocationView::Local(path.text()))
            } else {
                None
            },
            RepositoryView::Remote(remote) => Some(
                LocationView::Remote(HostPathView { host: remote.host, path }),
            ),
        },
    }
}

/// Where the files that a search found are.
pub open spec fn rule_locations(id: RepositoryView, nodes: Seq<NodeView>, local: PathEncoding) -> Seq<
    LocationView,
> {
    nodes.filter_map(|node: NodeView| rule_location(id, node, local))
}

/// The places of found files stand in the order that the files were found in. A file on another
/// host is at its path there; a file of a local repository is at its path as it is written, if the
/// machine is of the platform that the path belongs to; directories are passed over.
pub proof fn found_files_are_reached_in_order(
    id: RepositoryView,
    nodes: Seq<NodeView>,
    node: NodeView,
    local: PathEncoding,
)
    ensures
        ({
            let before = rule_locations(id, nodes, local);
            let after = rule_locations(id, nodes.push(node), local);
            &&& rule_locations(id, Seq::empty(), local).len() == 0
            &&& node is Directory ==> after == before
            &&& node matches NodeView::File { path, .. } ==> match id {
                RepositoryView::Remote(remote) => after == before.push(
                    LocationView::Remote(HostPathView { host: remote.host, path }),
                ),
                RepositoryView::Local(_) => if (path.root is Unix) == (local
                    == PathEncoding::Unix) {
                    after == before.push(LocationView::Local(path.text()))
                } else {
                    after == before
                },
            }
        }),
{
    sequence::lemma_filter_map_push(nodes, node, |node: NodeView| rule_location(id, node, local));
}

/// The places of a sequence.
pub open spec fn location_views(places: Seq<LocalOrRemotePath>) -> Seq<LocationView> {
    places.map_values(|place: LocalOrRemotePath| place@)
}

/// Where the files that a search found are.
pub fn find_project_rule_files_in_contents(
    repo_id: &RepositoryIdentifier,
    contents: Vec<OwnedRepoContent>,
    local: PathEncoding,
) -> (places: Vec<LocalOrRemotePath>)
    ensures
        location_views(places@) == rule_locations(
            repo_id@,
            node::content_views(contents@),
            local,
        ),
{
    let ghost nodes = node::content_views(contents@);
    let ghost f = |node: NodeView| rule_location(repo_id@, node, local);
    let mut places: Vec<LocalOrRemotePath> = Vec::new();
    assert(location_views(places@) =~= nodes.take(0).filter_map(f));
    for content in iter: contents.into_iter()
        invariant
            iter.seq() == contents@,
            nodes == node::content_views(contents@),
            f == (|node: NodeView| rule_location(repo_id@, node, local)),
            location_views(places@) == nodes.take(iter.index() as int).filter_map(f),
    {
        let ghost i = iter.index() as int;
        let ghost before = location_views(places@);
        proof {
            assert(nodes.take(i + 1) =~= nodes.take(i).push(nodes[i]));
            sequence::lemma_filter_map_push(nodes.take(i), nodes[i], f);
        }
        let place: Option<LocalOrRemotePath> = match content {
            OwnedRepoContent::File { path, .. } => match repo_id {
                RepositoryIdentifier::Local(_) => match path.to_local_path(local) {
                    Some(written) => Some(LocalOrRemotePath::Local(written)),
                    None => None,
                },
                RepositoryIdentifier::Remote(remote) => Some(
                    LocalOrRemotePath::Remote(RemotePath::new(remote.host_id.clone(), path)),
                ),
            },
            OwnedRepoContent::Directory { .. } => None,
        };
        if let Some(place) = place {
            places.push(place);
            assert(location_views(places@) =~= before.push(place@));
        }
    }
    assert(nodes.take(nodes.len() as int) =~= nodes);
    places
}

/// What is to be done with what a search found.
#[derive(Debug)]
pub enum Hydration {
    /// Nothing: the search has been outdated.
    Outdated,
    /// There are no files: the rules of the given place are to be replaced by none.
    Replace(Replacement),
    /// The files at the given places are to be read.
    Read { rule_paths: Vec<LocalOrRemotePath> },
}

/// A rule of a project.
#[derive(Debug, PartialEq, Eq)]
pub struct ProjectRule {
    pub path: LocalOrRemotePath,
    pub content: String,
}

/// What a [`ProjectRule`] says.
#[verifier::ext_equal]
pub struct RuleView {
    pub path: LocationView,
    pub content: Seq<char>,
}

impl View for ProjectRule {
    type V = RuleView;

    open spec fn view(&self) -> RuleView {
        RuleView { path: self.path@, content: self.content@ }
    }
}

/// The rules of a sequence.
pub open spec fn rule_views(rules: Seq<ProjectRule>) -> Seq<RuleView> {
    rules.map_values(|rule: ProjectRule| rule@)
}

/// The rules of a project that are to replace those from the given place.
#[derive(Debug)]
pub struct Replacement {
    pub root_path: LocalOrRemotePath,
    pub rules: Vec<ProjectRule>,
}

/// What a [`Hydration`] says.
#[verifier::ext_equal]
pub enum HydrationView {
    Outdated,
    Replace { root: LocationView, rules: Seq<RuleView> },
    Read { places: Seq<LocationView> },
}

impl View for Hydration {
    type V = HydrationView;

    open spec fn view(&self) -> HydrationView {
        match self {
            Hydration::Outdated => HydrationView::Outdated,
            Hydration::Replace(replacement) => HydrationView::Replace {
                root: replacement.root_path@,
                rules: rule_views(replacement.rules@),
            },
            Hydration::Read { rule_paths } => HydrationView::Read {
                places: location_views(rule_paths@),
            },
        }
    }
}

impl RulesView {
    /// What is to be done with the places that a search found.
    pub open spec fn hydration(
        self,
        id: RepositoryView,
        generation: u64,
        root: LocationView,
        places: Seq<LocationView>,
    ) -> HydrationView {
        if !self.is_current(id, generation) {
            HydrationView::Outdated
        } else if places.len() == 0 {
            HydrationView::Replace { root, rules: Seq::empty() }
        } else {
            HydrationView::Read { places }
        }
    }
}

/// What the latest search of a repository found is read, all of it and in its order; if it found
/// nothing, the rules of the repository are replaced by none. What any other search found comes to
/// nothing, and so does what a search found once its repository was searched again or forgotten.
pub proof fn findings_of_the_latest_search_count(
    rules: RulesView,
    id: RepositoryView,
    generation: u64,
    root: LocationView,
    places: Seq<LocationView>,
    older: u64,
)
    requires
        rules.started < u64::MAX,
        older <= rules.started,
    ensures
        ({
            let next = rules.advanced(id);
            let latest = next.generations[id];
            &&& places.len() > 0 ==> (next.hydration(id, latest, root, places) matches
                HydrationView::Read { places: read } && read == places)
            &&& places.len() == 0 ==> (next.hydration(id, latest, root, places) matches
                HydrationView::Replace { root: replaced, rules: none } && replaced == root
                && none.len() == 0)
            &&& generation != latest ==> next.hydration(id, generation, root, places) is Outdated
            &&& next.hydration(id, older, root, places) is Outdated
            &&& rules.without(id).hydration(id, generation, root, places) is Outdated
        }),
{
}

impl MetadataProjectRulesModel {
    /// Decides what is to be done with what a search found.
    pub fn hydrate_discovered_project_rules_if_current(
        &self,
        repo_id: &RepositoryIdentifier,
        refresh_generation: u64,
        root_path: LocalOrRemotePath,
        contents: Vec<OwnedRepoContent>,
        local: PathEncoding,
    ) -> (hydration: Hydration)
        ensures
            ({
                let places = rule_locations(repo_id@, node::content_views(contents@), local);
                match hydration {
                    Hydration::Outdated => !self@.is_current(repo_id@, refresh_generation),
                    Hydration::Replace(replacement) => {
                        &&& self@.is_current(repo_id@, refresh_generation)
                        &&& places.len() == 0
                        &&& replacement.root_path@ == root_path@
                        &&& replacement.rules@.len() == 0
                    },
                    Hydration::Read { rule_paths } => {
                        &&& self@.is_current(repo_id@, refresh_generation)
                        &&& places.len() > 0
                        &&& location_views(rule_paths@) == places
                    },
                }
            }),
            hydration@ == self@.hydration(
                repo_id@,
                refresh_generation,
                root_path@,
                rule_locations(repo_id@, node::content_views(contents@), local),
            ),
    {
        if !self.is_current(repo_id, refresh_generation) {
            return Hydration::Outdated;
        }
        let rule_paths = find_project_rule_files_in_contents(repo_id, contents, local);
        assert(rule_paths@.len() == location_views(rule_paths@).len());
        if rule_paths.len() == 0 {
            let rules: Vec<ProjectRule> = Vec::new();
            assert(rule_views(rules@) =~= Seq::empty());
            return Hydration::Replace(Replacement { root_path, rules });
        }
        Hydration::Read { rule_paths }
    }

    /// The replacement for the rules of a repository, where the search that found them is still
    /// the latest.
    pub fn apply_project_rules_from_metadata_if_current(
        &self,
        repo_id: &RepositoryIdentifier,
        refresh_generation: u64,
        root_path: LocalOrRemotePath,
        rules: Vec<ProjectRule>,
    ) -> (replacement: Option<Replacement>)
        ensures
            match replacement {
                Some(replacement) => {
                    &&& self@.is_current(repo_id@, refresh_generation)
                    &&& replacement.root_path@ == root_path@
                    &&& rule_views(replacement.rules@) == rule_views(rules@)
                },
                None => !self@.is_current(repo_id@, refresh_generation),
            },
    {
        if self.is_current(repo_id, refresh_generation) {
            Some(Replacement { root_path, rules })
        } else {
            None
        }
    }
}

/// The files that a request reads, one for each place on another host.
pub open spec fn requested_paths(places: Seq<LocationView>) -> Seq<Seq<char>> {
    places.filter_map(
        |place: LocationView|
            match place {
                LocationView::Remote(remote) => Some(remote.path.text()),
                LocationView::Local(_) => None,
            },
    )
}

/// A request names the files on other hosts by their paths, in the order of the places, and passes
/// over those of this machine.
pub proof fn requests_name_remote_files_in_order(places: Seq<LocationView>, place: LocationView)
    ensures
        requested_paths(Seq::empty()).len() == 0,
        place is Local ==> requested_paths(places.push(place)) == requested_paths(places),
        place matches LocationView::Remote(remote) ==> requested_paths(places.push(place))
            == requested_paths(places).push(remote.path.text()),
{
    let f = |place: LocationView|
        match place {
            LocationView::Remote(remote) => Some(remote.path.text()),
            LocationView::Local(_) => None,
        };
    sequence::lemma_filter_map_push(places, place, f);
}

/// The files that a request names.
pub open spec fn request_paths(files: Seq<proto::ReadFileContextFile>) -> Seq<Seq<char>> {
    files.map_values(|file: proto::ReadFileContextFile| file.path@)
}

/// The request that reads files on another host, all of each and without a limit on size.
pub fn remote_rule_read_request(rule_paths: &[LocalOrRemotePath]) -> (request:
    proto::ReadFileContextRequest)
    ensures
        request_paths(request.files@) == requested_paths(location_views(rule_paths@)),
        forall|i: int|
            0 <= i < request.files@.len() ==> (#[trigger] request.files@[i]).line_ranges@.len()
                == 0,
        request.max_file_bytes is None,
        request.max_batch_bytes is None,
{
    let ghost places = location_views(rule_paths@);
    let ghost f = |place: LocationView|
        match place {
            LocationView::Remote(remote) => Some(remote.path.text()),
            LocationView::Local(_) => None,
        };
    let mut files: Vec<proto::ReadFileContextFile> = Vec::new();
    let mut i: usize = 0;
    assert(request_paths(files@) =~= places.take(0).filter_map(f));
    while i < rule_paths.len()
        invariant
            i <= rule_paths.len(),
            places == location_views(rule_paths@),
            f == (|place: LocationView|
                match place {
                    LocationView::Remote(remote) => Some(remote.path.text()),
                    LocationView::Local(_) => None,
                }),
            request_paths(files@) == places.take(i as int).filter_map(f),
            forall|k: int|
                0 <= k < files@.len() ==> (#[trigger] files@[k]).line_ranges@.len() == 0,
        decreases rule_paths.len() - i,
    {
        let ghost before = request_paths(files@);
        proof {
            assert(places.take(i + 1) =~= places.take(i as int).push(places[i as int]));
            sequence::lemma_filter_map_push(places.take(i as int), places[i as int], f);
        }
        if let LocalOrRemotePath::Remote(remote) = &rule_paths[i] {
            let line_ranges: Vec<proto::LineRange> = Vec::new();
            let file = proto::ReadFileContextFile { path: remote.path.to_string(), line_ranges };
            files.push(file);
            assert(request_paths(files@) =~= before.push(file.path@));
        }
        i = i + 1;
    }
    assert(places.take(i as int) =~= places);
    proto::ReadFileContextRequest { files, max_file_bytes: None, max_batch_bytes: None }
}

/// How the files at some places are to be read.
#[derive(Debug)]
pub enum ReadPlan {
    /// There is nothing to read.
    Nothing,
    /// From this machine.
    Local { rule_paths: Vec<LocalOrRemotePath> },
    /// By a request to a host, if it is connected.
    Remote {
        host_id: HostId,
        request: proto::ReadFileContextRequest,
        rule_paths: Vec<LocalOrRemotePath>,
    },
}

/// What a [`ReadPlan`] says.
#[verifier::ext_equal]
pub enum ReadPlanView {
    Nothing,
    Local { places: Seq<LocationView> },
    Remote { host: Seq<char>, requested: Seq<Seq<char>>, places: Seq<LocationView> },
}

impl View for ReadPlan {
    type V = ReadPlanView;

    open spec fn view(&self) -> ReadPlanView {
        match self {
            ReadPlan::Nothing => ReadPlanView::Nothing,
            ReadPlan::Local { rule_paths } => ReadPlanView::Local {
                places: location_views(rule_paths@),
            },
            ReadPlan::Remote { host_id, request, rule_paths } => ReadPlanView::Remote {
                host: host_id@,
                requested: request_paths(request.files@),
                places: location_views(rule_paths@),
            },
        }
    }
}

/// How the files at some places are to be read.
pub open spec fn read_plan(places: Seq<LocationView>) -> ReadPlanView {
    if places.len() == 0 {
        ReadPlanView::Nothing
    } else {
        match places[0] {
            LocationView::Local(_) => ReadPlanView::Local { places },
            LocationView::Remote(remote) => ReadPlanView::Remote {
                host: remote.host,
                requested: requested_paths(places),
                places,
            },
        }
    }
}

/// Files are read where the first of them is, and every place is kept for what is read: from this
/// machine, or by a request to the host of the first place that names the files on other hosts.
/// Whatever places follow the first makes no difference to where files are read.
pub proof fn files_are_read_where_the_first_is(
    first: LocationView,
    rest: Seq<LocationView>,
    more: Seq<LocationView>,
)
    ensures
        read_plan(Seq::empty()) is Nothing,
        first is Local ==> {
            &&& read_plan(seq![first] + rest) matches ReadPlanView::Local { places }
            &&& places == seq![first] + rest
            &&& read_plan(seq![first] + more) is Local
        },
        first matches LocationView::Remote(remote) ==> {
            &&& read_plan(seq![first] + rest) matches ReadPlanView::Remote {
                host,
                requested,
                places,
            }
            &&& host == remote.host
            &&& requested == requested_paths(seq![first] + rest)
            &&& places == seq![first] + rest
            &&& read_plan(seq![first] + more) is Remote
        },
{
    assert((seq![first] + rest)[0] == first);
    assert((seq![first] + more)[0] == first);
}

/// Decides how the files at some places are to be read: as the first of them is.
pub fn read_project_rule_contents(rule_paths: Vec<LocalOrRemotePath>) -> (plan: ReadPlan)
    ensures
        match plan {
            ReadPlan::Nothing => rule_paths@.len() == 0,
            ReadPlan::Local { rule_paths: paths } => {
                &&& rule_paths@.len() > 0
                &&& rule_paths@[0]@ is Local
                &&& paths@ == rule_paths@
            },
            ReadPlan::Remote { host_id, request, rule_paths: paths } => {
                &&& rule_paths@.len() > 0
                &&& rule_paths@[0]@ matches LocationView::Remote(remote)
                &&& host_id@ == remote.host
                &&& request_paths(request.files@) == requested_paths(location_views(rule_paths@))
                &&& forall|i: int|
                    0 <= i < request.files@.len() ==> (
                    #[trigger] request.files@[i]).line_ranges@.len() == 0
                &&& request.max_file_bytes is None
                &&& request.max_batch_bytes is None
                &&& paths@ == rule_paths@
            },
        },
        plan@ == read_plan(location_views(rule_paths@)),
{
    if rule_paths.len() == 0 {
        return ReadPlan::Nothing;
    }
    let host_id: HostId = match &rule_paths[0] {
        LocalOrRemotePath::Local(_) => {
            return ReadPlan::Local { rule_paths };
        },
        LocalOrRemotePath::Remote(remote) => remote.host_id.clone(),
    };
    let request = remote_rule_read_request(rule_paths.as_slice());
    ReadPlan::Remote { host_id, request, rule_paths }
}

/// What was read at some places.
pub open spec fn content_pairs(pairs: Seq<(LocalOrRemotePath, String)>) -> Seq<RuleView> {
    pairs.map_values(
        |pair: (LocalOrRemotePath, String)| RuleView { path: pair.0@, content: pair.1@ },
    )
}

/// What was attempted to be read at some places.
pub open spec fn attempt_views(reads: Seq<(LocalOrRemotePath, Option<String>)>) -> Seq<
    (LocationView, Option<Seq<char>>),
> {
    reads.map_values(
        |read: (LocalOrRemotePath, Option<String>)| (read.0@, node::optional_text(read.1)),
    )
}

/// What was read at a place of this machine.
pub open spec fn local_content(read: (LocationView, Option<Seq<char>>)) -> Option<RuleView> {
    match read {
        (LocationView::Local(_), Some(content)) => Some(RuleView { path: read.0, content }),
        _ => None,
    }
}

/// What was read of a file of this machine is the rule of that place, whatever it says; nothing
/// comes of a file that could not be read or of a place elsewhere.
pub proof fn files_of_this_machine_keep_their_place(
    written: Seq<char>,
    remote: HostPathView,
    content: Seq<char>,
    read: Option<Seq<char>>,
)
    ensures
        local_content((LocationView::Local(written), Some(content))) matches Some(rule) && rule.path
            == LocationView::Local(written) && rule.content == content,
        local_content((LocationView::Local(written), None)) is None,
        local_content((LocationView::Remote(remote), read)) is None,
{
}

/// Contents and rules stand for what is in them, place by place and in their order.
pub proof fn contents_and_rules_keep_every_field(
    pairs: Seq<(LocalOrRemotePath, String)>,
    rules: Seq<ProjectRule>,
    i: int,
)
    ensures
        content_pairs(pairs).len() == pairs.len(),
        0 <= i < pairs.len() ==> content_pairs(pairs)[i].path == pairs[i].0@ && content_pairs(
            pairs,
        )[i].content == pairs[i].1@,
        rule_views(rules).len() == rules.len(),
        0 <= i < rules.len() ==> rule_views(rules)[i].path == rules[i].path@ && rule_views(
            rules,
        )[i].content == rules[i].content@,
{
}

/// What was read on this machine. Each place comes with what was read there, or with `None` where
/// it could not be read; places that could not be read and places elsewhere are left out.
pub fn read_local_project_rule_contents(
    reads: Vec<(LocalOrRemotePath, Option<String>)>,
) -> (contents: Vec<(LocalOrRemotePath, String)>)
    ensures
        content_pairs(contents@) == attempt_views(reads@).filter_map(|read| local_content(read)),
{
    let ghost attempts = attempt_views(reads@);
    let ghost f = |read| local_content(read);
    let mut contents: Vec<(LocalOrRemotePath, String)> = Vec::new();
    assert(content_pairs(contents@) =~= attempts.take(0).filter_map(f));
    for read in iter: reads.into_iter()
        invariant
            iter.seq() == reads@,
            attempts == attempt_views(reads@),
            f == (|read| local_content(read)),
            content_pairs(contents@) == attempts.take(iter.index() as int).filter_map(f),
    {
        let ghost i = iter.index() as int;
        let ghost before = content_pairs(contents@);
        proof {
            assert(attempts.take(i + 1) =~= attempts.take(i).push(attempts[i]));
            sequence::lemma_filter_map_push(attempts.take(i), attempts[i], f);
        }
        let (path, content) = read;
        let is_local = match &path {
            LocalOrRemotePath::Local(_) => true,
            LocalOrRemotePath::Remote(_) => false,
        };
        if is_local {
            if let Some(content) = content {
                let ghost pair = RuleView { path: path@, content: content@ };
                contents.push((path, content));
                assert(content_pairs(contents@) =~= before.push(pair));
            }
        }
    }
    assert(attempts.take(attempts.len() as int) =~= attempts);
    contents
}

/// The text of the file with the given name; of several texts for one name the last counts.
pub open spec fn text_of(contexts: Seq<FileContextView>, file_name: Seq<char>) -> Option<Seq<char>>
    decreases contexts.len(),
{
    if contexts.len() == 0 {
        None
    } else if contexts.last().file_name == file_name && contexts.last().text is Some {
        contexts.last().text
    } else {
        text_of(contexts.drop_last(), file_name)
    }
}

/// Of the texts that an answer holds for a name the last counts; what it holds for other names, or
/// holds for the name without a text, does not matter.
pub proof fn last_text_counts(
    contexts: Seq<FileContextView>,
    context: FileContextView,
    file_name: Seq<char>,
)
    ensures
        text_of(Seq::empty(), file_name) is None,
        context.file_name == file_name && context.text is Some ==> text_of(
            contexts.push(context),
            file_name,
        ) == context.text,
        context.file_name != file_name || context.text is None ==> text_of(
            contexts.push(context),
            file_name,
        ) == text_of(contexts, file_name),
{
    assert(contexts.push(context).drop_last() =~= contexts);
}

/// What was read at a place on another host.
pub open spec fn remote_content(place: LocationView, contexts: Seq<FileContextView>) -> Option<
    RuleView,
> {
    match place {
        LocationView::Remote(remote) => match text_of(contexts, remote.path.text()) {
            Some(content) => Some(RuleView { path: place, content }),
            None => None,
        },
        LocationView::Local(_) => None,
    }
}

/// What was read at places on another host.
pub open spec fn remote_contents(
    places: Seq<LocationView>,
    contexts: Seq<FileContextView>,
) -> Seq<RuleView> {
    places.filter_map(|place: LocationView| remote_content(place, contexts))
}

/// What was read on another host stands in the order of the places. A place there comes with the
/// text that the answer holds for its path as it is written; a place without one, and a place of
/// this machine, is passed over.
pub proof fn remote_contents_stand_in_order(
    places: Seq<LocationView>,
    place: LocationView,
    contexts: Seq<FileContextView>,
)
    ensures
        ({
            let before = remote_contents(places, contexts);
            let after = remote_contents(places.push(place), contexts);
            &&& remote_contents(Seq::empty(), contexts).len() == 0
            &&& place is Local ==> after == before
            &&& place matches LocationView::Remote(remote) ==> match text_of(
                contexts,
                remote.path.text(),
            ) {
                Some(content) => after == before.push(RuleView { path: place, content }),
                None => after == before,
            }
        }),
{
    sequence::lemma_filter_map_push(
        places,
        place,
        |place: LocationView| remote_content(place, contexts),
    );
}

/// A text that is found for a name is one that was read for it.
proof fn lemma_text_of(contexts: Seq<FileContextView>, file_name: Seq<char>)
    ensures
        text_of(contexts, file_name) matches Some(content) ==> contexts.contains(
            FileContextView { file_name, text: Some(content) },
        ),
        text_of(contexts, file_name) is None ==> forall|i: int|
            0 <= i < contexts.len() && (#[trigger] contexts[i]).file_name == file_name
                ==> contexts[i].text is None,
    decreases contexts.len(),
{
    if contexts.len() > 0 {
        let front = contexts.drop_last();
        lemma_text_of(front, file_name);
        if contexts.last().file_name == file_name && contexts.last().text is Some {
            assert(contexts[contexts.len() - 1] == FileContextView {
                file_name,
                text: contexts.last().text,
            });
        } else {
            if let Some(content) = text_of(front, file_name) {
                let wanted = FileContextView { file_name, text: Some(content) };
                let i = choose|i: int| 0 <= i < front.len() && front[i] == wanted;
                assert(contexts[i] == wanted);
            } else {
                assert forall|i: int|
                    0 <= i < contexts.len() && (#[trigger] contexts[i]).file_name
                        == file_name implies contexts[i].text is None by {
                    if i < front.len() {
                        assert(front[i] == contexts[i]);
                    }
                }
            }
        }
    }
}

/// Whatever the order of an answer and whatever is missing from it, a place keeps the text that
/// was read for it, and the places keep their order: what is read comes from the places asked
/// for, one after the other, each with a text that the answer holds for its path.
pub proof fn remote_contents_stay_aligned(
    places: Seq<LocationView>,
    contexts: Seq<FileContextView>,
    i: int,
)
    requires
        0 <= i < remote_contents(places, contexts).len(),
    ensures
        places.contains(remote_contents(places, contexts)[i].path),
        remote_contents(places, contexts)[i].path matches LocationView::Remote(remote)
            && contexts.contains(
            FileContextView {
                file_name: remote.path.text(),
                text: Some(remote_contents(places, contexts)[i].content),
            },
        ),
    decreases places.len(),
{
    let f = |place: LocationView| remote_content(place, contexts);
    let front = places.drop_last();
    assert(places =~= front.push(places.last()));
    sequence::lemma_filter_map_push(front, places.last(), f);
    let before = remote_contents(front, contexts);
    if i < before.len() {
        remote_contents_stay_aligned(front, contexts, i);
        let k = choose|k: int| 0 <= k < front.len() && front[k] == before[i].path;
        assert(places[k] == before[i].path);
    } else {
        assert(places[places.len() - 1] == places.last());
        if let LocationView::Remote(remote) = places.last() {
            lemma_text_of(contexts, remote.path.text());
        }
    }
}

/// A place on another host for which an answer holds a text is not left out.
pub proof fn remote_contents_leave_nothing_out(
    places: Seq<LocationView>,
    contexts: Seq<FileContextView>,
    k: int,
    m: int,
)
    requires
        0 <= k < places.len(),
        0 <= m < contexts.len(),
        places[k] matches LocationView::Remote(remote) && contexts[m].file_name
            == remote.path.text() && contexts[m].text is Some,
    ensures
        exists|i: int|
            0 <= i < remote_contents(places, contexts).len() && (#[trigger] remote_contents(
                places,
                contexts,
            )[i]).path == places[k],
    decreases places.len(),
{
    let f = |place: LocationView| remote_content(place, contexts);
    let front = places.drop_last();
    assert(places =~= front.push(places.last()));
    sequence::lemma_filter_map_push(front, places.last(), f);
    let before = remote_contents(front, contexts);
    let all = remote_contents(places, contexts);
    if k < front.len() {
        assert(front[k] == places[k]);
        remote_contents_leave_nothing_out(front, contexts, k, m);
        let i = choose|i: int| 0 <= i < before.len() && (#[trigger] before[i]).path == places[k];
        assert(all[i] == before[i]);
    } else {
        if let LocationView::Remote(remote) = places[k] {
            lemma_text_of(contexts, remote.path.text());
        }
        assert(all[before.len() as int].path == places[k]);
    }
}

/// The text of the file with the given name.
fn find_text<'a>(contexts: &'a Vec<proto::FileContextProto>, file_name: &str) -> (found: Option<
    &'a String,
>)
    ensures
        match found {
            Some(content) => text_of(proto::context_views(contexts@), file_name@) == Some(content@),
            None => text_of(proto::context_views(contexts@), file_name@) is None,
        },
{
    let ghost views = proto::context_views(contexts@);
    let mut i: usize = contexts.len();
    assert(views.take(i as int) =~= views);
    while i > 0
        invariant
            i <= contexts.len(),
            views == proto::context_views(contexts@),
            text_of(views, file_name@) == text_of(views.take(i as int), file_name@),
        decreases i,
    {
        proof {
            assert(views.take(i as int).drop_last() =~= views.take(i - 1));
            assert(views.take(i as int).last() == views[i - 1]);
        }
        i = i - 1;
        if text::same_text(contexts[i].file_name.as_str(), file_name) {
            if let Some(proto::Content::TextContent(content)) = &contexts[i].content {
                return Some(content);
            }
        }
    }
    None
}

/// What was read at places on another host: each place with the text that the answer holds for
/// its path, whatever the order of the answer.
pub fn read_remote_project_rule_contents(
    rule_paths: Vec<LocalOrRemotePath>,
    file_contexts: Vec<proto::FileContextProto>,
) -> (contents: Vec<(LocalOrRemotePath, String)>)
    ensures
        content_pairs(contents@) == remote_contents(
            location_views(rule_paths@),
            proto::context_views(file_contexts@),
        ),
{
    let ghost places = location_views(rule_paths@);
    let ghost contexts = proto::context_views(file_contexts@);
    let ghost f = |place: LocationView| remote_content(place, contexts);
    let mut contents: Vec<(LocalOrRemotePath, String)> = Vec::new();
    assert(content_pairs(contents@) =~= places.take(0).filter_map(f));
    for path in iter: rule_paths.into_iter()
        invariant
            iter.seq() == rule_paths@,
            places == location_views(rule_paths@),
            contexts == proto::context_views(file_contexts@),
            f == (|place: LocationView| remote_content(place, contexts)),
            content_pairs(contents@) == places.take(iter.index() as int).filter_map(f),
    {
        let ghost i = iter.index() as int;
        let ghost before = content_pairs(contents@);
        proof {
            assert(places.take(i + 1) =~= places.take(i).push(places[i]));
            sequence::lemma_filter_map_push(places.take(i), places[i], f);
        }
        let content: Option<String> = match &path {
            LocalOrRemotePath::Remote(remote) => match find_text(
                &file_contexts,
                remote.path.as_str(),
            ) {
                Some(content) => Some(content.clone()),
                None => None,
            },
            LocalOrRemotePath::Local(_) => None,
        };
        if let Some(content) = content {
            let ghost pair = RuleView { path: path@, content: content@ };
            contents.push((path, content));
            assert(content_pairs(contents@) =~= before.push(pair));
        }
    }
    assert(places.take(places.len() as int) =~= places);
    contents
}

/// The rules that the contents of files are.
pub fn build_project_rules(rule_contents: Vec<(LocalOrRemotePath, String)>) -> (rules: Vec<
    ProjectRule,
>)
    ensures
        rule_views(rules@) == content_pairs(rule_contents@),
{
    let mut rules: Vec<ProjectRule> = Vec::new();
    for pair in iter: rule_contents.into_iter()
        invariant
            iter.seq() == rule_contents@,
            rules@.len() == iter.index(),
            forall|k: int|
                0 <= k < rules@.len() ==> (#[trigger] rules@[k])@ == content_pairs(
                    rule_contents@,
                )[k],
    {
        let (path, content) = pair;
        rules.push(ProjectRule { path, content });
    }
    assert(rule_views(rules@) =~= content_pairs(rule_contents@));
    rules
}

/// The host that a query about a repository has to be sent to; `None` for a local repository.
pub fn remote_query_host(repo_id: &RepositoryIdentifier) -> (host: Option<&HostId>)
    ensures
        match host {
            Some(host) => repo_id@ matches RepositoryView::Remote(remote) && host@ == remote.host,
            None => repo_id@ is Local,
        },
{
    match repo_id {
        RepositoryIdentifier::Local(_) => None,
        RepositoryIdentifier::Remote(remote) => Some(&remote.host_id),
    }
}

/// The request that has a host answer a query about one of its repositories.
pub fn remote_query_request(
    id: &RemoteRepositoryIdentifier,
    query: RepoMetadataQuery,
    budget: RepoContentsQueryBudget,
) -> (request: proto::QueryRepoMetadataRequest)
    ensures
        request.repo_path@ == id@.path.text(),
        request.query@ == repo_metadata_proto::encode_query(query@),
        request.max_entries_scanned == budget.max_entries_scanned,
{
    proto::QueryRepoMetadataRequest {
        repo_path: id.path.to_string(),
        query: repo_metadata_query_to_proto(query),
        max_entries_scanned: budget.max_entries_scanned as u64,
    }
}

/// What the reply of a host says; where there was none, the words say why.
pub fn remote_query_answer(
    reply: Result<proto::QueryRepoMetadataResponse, String>,
) -> (answer: Result<Vec<OwnedRepoContent>, RepoContentsQueryError>)
    ensures
        model::answer_view(answer) == match reply {
            Ok(response) => repo_metadata_proto::decode_response(response@),
            Err(message) => Err(QueryErrorView::QueryFailed { message: message@ }),
        },
{
    match reply {
        Ok(response) => proto_query_repo_metadata_response_to_contents(&response),
        Err(message) => Err(RepoContentsQueryError::QueryFailed { message }),
    }
}

} // verus!
