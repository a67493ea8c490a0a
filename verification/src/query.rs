//! Typed questions about a repository's contents.

use vstd::prelude::*;

use crate::identifier::{
    HostPathView, RemoteRepositoryIdentifier, RepositoryIdentifier, RepositoryView,
};
use crate::node::{NodeView, RepoContent};
use crate::path::{PathView, StandardizedPath};
use crate::sequence;
use crate::text;

verus! {

/// How many entries an authoritative contents query may scan unless told otherwise.
pub const DEFAULT_AUTHORITATIVE_QUERY_MAX_ENTRIES_SCANNED: usize = 100_000;

/// Maximum file-system traversal work permitted by an authoritative contents query.
#[derive(Debug, Clone, Copy, PartialEq, Eq, Structural)]
pub struct RepoContentsQueryBudget {
    pub max_entries_scanned: usize,
}

impl Default for RepoContentsQueryBudget {
    fn default() -> (budget: Self)
        ensures
            budget.max_entries_scanned == DEFAULT_AUTHORITATIVE_QUERY_MAX_ENTRIES_SCANNED,
            budget.max_entries_scanned == 100_000,
    {
        RepoContentsQueryBudget {
            max_entries_scanned: DEFAULT_AUTHORITATIVE_QUERY_MAX_ENTRIES_SCANNED,
        }
    }
}

/// Descriptions of authoritative metadata discovery requests.
#[derive(Debug, PartialEq, Eq)]
pub enum RepoMetadataQuery {
    /// Finds `SKILL.md` files below registered provider roots and returns provider directories
    /// as well so local callers can supplement indexed paths with symlinked skill directories.
    ProjectSkillFiles { provider_paths: Vec<String> },
    /// Finds files whose basename equals one of the requested names.
    FilesNamed { names: Vec<String> },
}

/// What a [`RepoMetadataQuery`] asks for.
#[verifier::ext_equal]
pub enum QueryView {
    ProjectSkillFiles { provider_paths: Seq<Seq<char>> },
    FilesNamed { names: Seq<Seq<char>> },
}

impl View for RepoMetadataQuery {
    type V = QueryView;

    open spec fn view(&self) -> QueryView {
        match self {
            RepoMetadataQuery::ProjectSkillFiles { provider_paths } => {
                QueryView::ProjectSkillFiles { provider_paths: text::texts(provider_paths@) }
            },
            RepoMetadataQuery::FilesNamed { names } => {
                QueryView::FilesNamed { names: text::texts(names@) }
            },
        }
    }
}

impl Clone for RepoMetadataQuery {
    fn clone(&self) -> (query: Self)
        ensures
            query@ == self@,
    {
        match self {
            RepoMetadataQuery::ProjectSkillFiles { provider_paths } => {
                let copy: Vec<String> = provider_paths.clone();
                assert(text::texts(copy@) =~= text::texts(provider_paths@));
                RepoMetadataQuery::ProjectSkillFiles { provider_paths: copy }
            },
            RepoMetadataQuery::FilesNamed { names } => {
                let copy: Vec<String> = names.clone();
                assert(text::texts(copy@) =~= text::texts(names@));
                RepoMetadataQuery::FilesNamed { names: copy }
            },
        }
    }
}

/// Explicit failure states for completeness-aware repository-content queries.
#[derive(Debug, PartialEq, Eq)]
pub enum RepoContentsQueryError {
    /// Repository metadata was not found.
    RepositoryNotFound(RepositoryIdentifier),
    /// Repository metadata indexing is still pending.
    RepositoryPending(RepositoryIdentifier),
    /// Repository metadata indexing failed.
    RepositoryIndexingFailed { id: RepositoryIdentifier, message: String },
    /// No remote metadata query provider is available.
    RemoteQueryUnavailable(RemoteRepositoryIdentifier),
    /// The query itself failed.
    QueryFailed { message: String },
    /// The query scanned as many entries as its budget permits and was not done.
    QueryBudgetExceeded { limit: usize },
}

/// What a [`RepoContentsQueryError`] reports.
#[verifier::ext_equal]
pub enum QueryErrorView {
    RepositoryNotFound(RepositoryView),
    RepositoryPending(RepositoryView),
    RepositoryIndexingFailed { id: RepositoryView, message: Seq<char> },
    RemoteQueryUnavailable(HostPathView),
    QueryFailed { message: Seq<char> },
    QueryBudgetExceeded { limit: usize },
}

impl View for RepoContentsQueryError {
    type V = QueryErrorView;

    open spec fn view(&self) -> QueryErrorView {
        match self {
            RepoContentsQueryError::RepositoryNotFound(id) => {
                QueryErrorView::RepositoryNotFound(id@)
            },
            RepoContentsQueryError::RepositoryPending(id) => {
                QueryErrorView::RepositoryPending(id@)
            },
            RepoContentsQueryError::RepositoryIndexingFailed { id, message } => {
                QueryErrorView::RepositoryIndexingFailed { id: id@, message: message@ }
            },
            RepoContentsQueryError::RemoteQueryUnavailable(id) => {
                QueryErrorView::RemoteQueryUnavailable(id@)
            },
            RepoContentsQueryError::QueryFailed { message } => {
                QueryErrorView::QueryFailed { message: message@ }
            },
            RepoContentsQueryError::QueryBudgetExceeded { limit } => {
                QueryErrorView::QueryBudgetExceeded { limit: *limit }
            },
        }
    }
}

impl Clone for RepoContentsQueryError {
    fn clone(&self) -> (error: Self)
        ensures
            error@ == self@,
    {
        match self {
            RepoContentsQueryError::RepositoryNotFound(id) => {
                RepoContentsQueryError::RepositoryNotFound(id.clone())
            },
            RepoContentsQueryError::RepositoryPending(id) => {
                RepoContentsQueryError::RepositoryPending(id.clone())
            },
            RepoContentsQueryError::RepositoryIndexingFailed { id, message } => {
                RepoContentsQueryError::RepositoryIndexingFailed {
                    id: id.clone(),
                    message: message.clone(),
                }
            },
            RepoContentsQueryError::RemoteQueryUnavailable(id) => {
                RepoContentsQueryError::RemoteQueryUnavailable(id.clone())
            },
            RepoContentsQueryError::QueryFailed { message } => {
                RepoContentsQueryError::QueryFailed { message: message.clone() }
            },
            RepoContentsQueryError::QueryBudgetExceeded { limit } => {
                RepoContentsQueryError::QueryBudgetExceeded { limit: *limit }
            },
        }
    }
}

/// A query asks for what stands in its fields, in their order, and an error reports what stands in
/// it.
pub proof fn queries_and_errors_keep_every_field(
    asked: Vec<String>,
    id: RepositoryIdentifier,
    remote: RemoteRepositoryIdentifier,
    message: String,
    limit: usize,
    i: int,
)
    ensures
        (RepoMetadataQuery::FilesNamed { names: asked })@ matches QueryView::FilesNamed { names }
            && names.len() == asked@.len() && (0 <= i < asked@.len() ==> names[i] == asked@[i]@),
        (RepoMetadataQuery::ProjectSkillFiles { provider_paths: asked })@ matches
            QueryView::ProjectSkillFiles { provider_paths } && provider_paths.len()
            == asked@.len() && (0 <= i < asked@.len() ==> provider_paths[i] == asked@[i]@),
        RepoContentsQueryError::RepositoryNotFound(id)@ == QueryErrorView::RepositoryNotFound(id@),
        RepoContentsQueryError::RepositoryPending(id)@ == QueryErrorView::RepositoryPending(id@),
        (RepoContentsQueryError::RepositoryIndexingFailed { id, message })@ == (
        QueryErrorView::RepositoryIndexingFailed { id: id@, message: message@ }),
        RepoContentsQueryError::RemoteQueryUnavailable(remote)@
            == QueryErrorView::RemoteQueryUnavailable(remote@),
        (RepoContentsQueryError::QueryFailed { message })@ == (QueryErrorView::QueryFailed {
            message: message@,
        }),
        (RepoContentsQueryError::QueryBudgetExceeded { limit })@ == (
        QueryErrorView::QueryBudgetExceeded { limit }),
{
}

/// The names that a provider path is made of, whichever separator it is written with.
pub open spec fn suffix_components(suffix: Seq<char>) -> Seq<Seq<char>> {
    text::split(suffix, true).filter(|component: Seq<char>| component.len() > 0)
}

/// Whether `path` ends in the components of `suffix`.
pub open spec fn has_component_suffix(path: PathView, suffix: Seq<char>) -> bool {
    suffix_components(suffix).is_suffix_of(path.components)
}

/// Whether `path` ends in the components of one of the provider paths.
pub open spec fn is_provider_root(path: PathView, provider_paths: Seq<Seq<char>>) -> bool {
    exists|i: int|
        0 <= i < provider_paths.len() && has_component_suffix(path, #[trigger] provider_paths[i])
}

/// The directory that holds the directory a path is in.
pub open spec fn grandparent(path: PathView) -> Option<PathView> {
    match path.parent() {
        Some(parent) => parent.parent(),
        None => None,
    }
}

/// Whether a query asks for the file or directory at `path`.
pub open spec fn query_matches(path: PathView, is_directory: bool, query: QueryView) -> bool {
    match query {
        QueryView::ProjectSkillFiles { provider_paths } => if is_directory {
            is_provider_root(path, provider_paths)
        } else {
            &&& path.file_name() == Some("SKILL.md"@)
            &&& grandparent(path) matches Some(skills_root)
            &&& is_provider_root(skills_root, provider_paths)
        },
        QueryView::FilesNamed { names } => {
            &&& !is_directory
            &&& path.file_name() matches Some(name)
            &&& names.contains(name)
        },
    }
}

/// Whether a query asks for a node.
pub open spec fn query_matches_node(node: NodeView, query: QueryView) -> bool {
    query_matches(node.path(), node is Directory, query)
}

/// A file is found by its name exactly if the last component of its path is one of the names
/// asked for, whatever platform the path is written for and wherever the file is; a directory
/// never is.
pub proof fn files_are_found_by_their_last_component(
    path: PathView,
    is_directory: bool,
    names: Seq<Seq<char>>,
)
    ensures
        query_matches(path, is_directory, QueryView::FilesNamed { names }) <==> {
            &&& !is_directory
            &&& path.components.len() > 0
            &&& exists|i: int|
                0 <= i < names.len() && #[trigger] names[i] == path.components[path.components.len()
                    - 1]
        },
{
    if path.components.len() > 0 {
        let last = path.components[path.components.len() - 1];
        if names.contains(last) {
            let i = choose|i: int| 0 <= i < names.len() && names[i] == last;
            assert(names[i] == last);
        }
    }
}

/// Two files with the same last component are found by the same names.
pub proof fn files_of_one_name_match_alike(a: PathView, b: PathView, names: Seq<Seq<char>>)
    requires
        a.components.len() > 0,
        b.components.len() > 0,
        a.components[a.components.len() - 1] == b.components[b.components.len() - 1],
    ensures
        query_matches(a, false, QueryView::FilesNamed { names }) == query_matches(
            b,
            false,
            QueryView::FilesNamed { names },
        ),
{
}

/// What a query asks for depends on the components of a path alone, not on the root that they
/// start at.
pub proof fn roots_do_not_matter_to_queries(
    a: PathView,
    b: PathView,
    is_directory: bool,
    query: QueryView,
)
    requires
        a.components == b.components,
    ensures
        query_matches(a, is_directory, query) == query_matches(b, is_directory, query),
{
    if let QueryView::ProjectSkillFiles { provider_paths } = query {
        lemma_provider_roots_by_components(a, b, provider_paths);
        if let (Some(up), Some(other)) = (grandparent(a), grandparent(b)) {
            lemma_provider_roots_by_components(up, other, provider_paths);
        }
    }
}

proof fn lemma_provider_roots_by_components(
    a: PathView,
    b: PathView,
    provider_paths: Seq<Seq<char>>,
)
    requires
        a.components == b.components,
    ensures
        is_provider_root(a, provider_paths) == is_provider_root(b, provider_paths),
{
    if is_provider_root(a, provider_paths) {
        let i = choose|i: int|
            0 <= i < provider_paths.len() && has_component_suffix(a, #[trigger] provider_paths[i]);
        assert(has_component_suffix(b, provider_paths[i]));
    }
    if is_provider_root(b, provider_paths) {
        let i = choose|i: int|
            0 <= i < provider_paths.len() && has_component_suffix(b, #[trigger] provider_paths[i]);
        assert(has_component_suffix(a, provider_paths[i]));
    }
}

/// A provider path names the components that stand between its separators, of either kind: an
/// empty one names none, a separator at the end adds none, and a name behind a separator adds
/// itself.
pub proof fn provider_paths_name_components(front: Seq<char>, separator: char, name: Seq<char>)
    requires
        separator == '/' || separator == '\\',
        name.len() > 0,
        forall|i: int| 0 <= i < name.len() ==> #[trigger] name[i] != '/' && name[i] != '\\',
    ensures
        suffix_components(Seq::empty()) == Seq::<Seq<char>>::empty(),
        suffix_components(name) == seq![name],
        suffix_components(front.push(separator)) == suffix_components(front),
        suffix_components(front.push(separator) + name) == suffix_components(front).push(name),
{
    let keep = |component: Seq<char>| component.len() > 0;
    let nothing = Seq::<char>::empty();
    text::lemma_split_of_piece(nothing, true);
    text::lemma_split_of_piece(name, true);
    text::lemma_split_append_piece(front, separator, name, true);
    text::lemma_split_append_piece(front, separator, nothing, true);
    assert(front.push(separator) + nothing =~= front.push(separator));
    let none = Seq::<Seq<char>>::empty();
    assert(none.filter(keep) =~= none) by {
        reveal(Seq::filter);
    }
    assert(seq![nothing] =~= none.push(nothing));
    assert(seq![name] =~= none.push(name));
    sequence::lemma_filter_push(none, nothing, keep);
    sequence::lemma_filter_push(none, name, keep);
    sequence::lemma_filter_push(text::split(front, true), name, keep);
    sequence::lemma_filter_push(text::split(front, true), nothing, keep);
}

/// A directory is a provider directory exactly if its path ends in what some provider path names,
/// component for component.
pub proof fn provider_directories_end_in_a_provider_path(
    path: PathView,
    provider_paths: Seq<Seq<char>>,
)
    ensures
        query_matches(path, true, QueryView::ProjectSkillFiles { provider_paths }) <==> exists|
            i: int,
            above: int,
        |
            0 <= i < provider_paths.len() && 0 <= above <= path.components.len()
                && #[trigger] path.components.skip(above) == suffix_components(
                #[trigger] provider_paths[i],
            ),
{
    let len = path.components.len() as int;
    if is_provider_root(path, provider_paths) {
        let i = choose|i: int|
            0 <= i < provider_paths.len() && has_component_suffix(
                path,
                #[trigger] provider_paths[i],
            );
        let named = suffix_components(provider_paths[i]);
        let above = len - named.len();
        assert(path.components.skip(above) =~= named);
    }
    if exists|i: int, above: int|
        0 <= i < provider_paths.len() && 0 <= above <= path.components.len()
            && #[trigger] path.components.skip(above) == suffix_components(
            #[trigger] provider_paths[i],
        ) {
        let (i, above) = choose|i: int, above: int|
            0 <= i < provider_paths.len() && 0 <= above <= path.components.len()
                && #[trigger] path.components.skip(above) == suffix_components(
                #[trigger] provider_paths[i],
            );
        let named = suffix_components(provider_paths[i]);
        assert(named.len() == len - above);
        assert(named =~= path.components.subrange(len - named.len(), len));
        assert(has_component_suffix(path, provider_paths[i]));
    }
}

/// A skill file is a file called `SKILL.md` in a directory of a provider directory: a file matches
/// exactly if its path is that of a provider directory with one name and `SKILL.md` behind it.
pub proof fn skill_files_are_in_directories_of_provider_directories(
    path: PathView,
    provider_paths: Seq<Seq<char>>,
)
    ensures
        query_matches(path, false, QueryView::ProjectSkillFiles { provider_paths }) <==> exists|
            provider: PathView,
            name: Seq<char>,
        |
            path == (PathView {
                root: provider.root,
                components: #[trigger] provider.components.push(name).push("SKILL.md"@),
            }) && query_matches(provider, true, QueryView::ProjectSkillFiles { provider_paths }),
{
    let query = QueryView::ProjectSkillFiles { provider_paths };
    if query_matches(path, false, query) {
        let provider = grandparent(path)->0;
        let name = path.components[path.components.len() - 2];
        assert(path.components =~= provider.components.push(name).push("SKILL.md"@));
    }
    if exists|provider: PathView, name: Seq<char>|
        path == (PathView {
            root: provider.root,
            components: #[trigger] provider.components.push(name).push("SKILL.md"@),
        }) && query_matches(provider, true, query) {
        let (provider, name) = choose|provider: PathView, name: Seq<char>|
            path == (PathView {
                root: provider.root,
                components: #[trigger] provider.components.push(name).push("SKILL.md"@),
            }) && query_matches(provider, true, query);
        let skill = PathView { root: provider.root, components: provider.components.push(name) };
        assert(path.components.drop_last() =~= skill.components);
        assert(skill.components.drop_last() =~= provider.components);
        assert(path.parent() == Some(skill));
        assert(skill.parent() == Some(provider));
    }
}

/// A query for more names, or for more provider paths, finds what each part of it finds and
/// nothing else.
pub proof fn larger_queries_find_what_their_parts_find(
    path: PathView,
    is_directory: bool,
    a: Seq<Seq<char>>,
    b: Seq<Seq<char>>,
)
    ensures
        query_matches(path, is_directory, QueryView::FilesNamed { names: a + b }) <==> {
            ||| query_matches(path, is_directory, QueryView::FilesNamed { names: a })
            ||| query_matches(path, is_directory, QueryView::FilesNamed { names: b })
        },
        query_matches(path, is_directory, QueryView::ProjectSkillFiles { provider_paths: a + b })
            <==> {
            ||| query_matches(path, is_directory, QueryView::ProjectSkillFiles { provider_paths: a })
            ||| query_matches(path, is_directory, QueryView::ProjectSkillFiles { provider_paths: b })
        },
{
    if let Some(name) = path.file_name() {
        if a.contains(name) {
            let i = choose|i: int| 0 <= i < a.len() && a[i] == name;
            assert((a + b)[i] == name);
        }
        if b.contains(name) {
            let i = choose|i: int| 0 <= i < b.len() && b[i] == name;
            assert((a + b)[a.len() + i] == name);
        }
    }
    lemma_provider_roots_of_parts(path, a, b);
    if let Some(up) = grandparent(path) {
        lemma_provider_roots_of_parts(up, a, b);
    }
}

proof fn lemma_provider_roots_of_parts(path: PathView, a: Seq<Seq<char>>, b: Seq<Seq<char>>)
    ensures
        is_provider_root(path, a + b) <==> is_provider_root(path, a) || is_provider_root(path, b),
{
    if is_provider_root(path, a) {
        let i = choose|i: int|
            0 <= i < a.len() && has_component_suffix(path, #[trigger] a[i]);
        assert(has_component_suffix(path, (a + b)[i]));
    }
    if is_provider_root(path, b) {
        let i = choose|i: int|
            0 <= i < b.len() && has_component_suffix(path, #[trigger] b[i]);
        assert(has_component_suffix(path, (a + b)[a.len() + i]));
    }
    if is_provider_root(path, a + b) {
        let i = choose|i: int|
            0 <= i < (a + b).len() && has_component_suffix(path, #[trigger] (a + b)[i]);
        if i < a.len() {
            assert(has_component_suffix(path, a[i]));
        } else {
            assert(has_component_suffix(path, b[i - a.len()]));
        }
    }
}

/// Whether a query asks for a node depends on where it is and on whether it is a directory, on
/// nothing else that is known of it.
pub proof fn nodes_match_by_place_and_sort(
    path: PathView,
    ignored: bool,
    loaded: bool,
    extension: Option<Seq<char>>,
    query: QueryView,
)
    ensures
        query_matches_node(NodeView::Directory { path, ignored, loaded }, query) == query_matches(
            path,
            true,
            query,
        ),
        query_matches_node(NodeView::File { path, extension, ignored }, query) == query_matches(
            path,
            false,
            query,
        ),
{
}

/// Whether `path` ends in the components of `suffix`, which may be written with either separator.
pub fn path_has_component_suffix(path: &StandardizedPath, suffix: &str) -> (ends: bool)
    ensures
        ends == has_component_suffix(path@, suffix@),
{
    let pieces: Vec<String> = text::split_text(suffix, true);
    let ghost keep = |component: Seq<char>| component.len() > 0;
    let ghost all = text::texts(pieces@);
    let ghost expected = suffix_components(suffix@);
    let ghost len = path@.components.len() as int;
    let mut candidate: StandardizedPath = path.clone();
    let mut i: usize = pieces.len();
    proof {
        assert(all.take(i as int) =~= all);
        assert(path@.components.take(len) =~= path@.components);
        assert(expected.take(expected.len() as int) =~= expected);
    }
    while i > 0
        invariant
            i <= pieces.len(),
            all == text::texts(pieces@),
            keep == (|component: Seq<char>| component.len() > 0),
            expected == suffix_components(suffix@),
            len == path@.components.len(),
            all == text::split(suffix@, true),
            ({
                let left = all.take(i as int).filter(keep);
                &&& left.is_prefix_of(expected)
                &&& expected.len() - left.len() <= len
                &&& candidate@ == (PathView {
                    root: path@.root,
                    components: path@.components.take(len - (expected.len() - left.len())),
                })
                &&& expected.skip(left.len() as int) == path@.components.skip(
                    len - (expected.len() - left.len()),
                )
            }),
        decreases i,
    {
        let ghost left = all.take(i as int).filter(keep);
        let ghost rest = all.take(i - 1).filter(keep);
        proof {
            assert(all.take(i as int) =~= all.take(i - 1).push(all[i - 1]));
            sequence::lemma_filter_push(all.take(i - 1), all[i - 1], keep);
        }
        i = i - 1;
        let piece: &str = pieces[i].as_str();
        if !piece.is_empty() {
            let ghost matched = expected.len() - left.len();
            assert(left == rest.push(piece@));
            assert(expected[left.len() - 1] == left[left.len() - 1]);
            let same = match candidate.file_name() {
                Some(name) => text::same_text(name, piece),
                None => false,
            };
            if !same {
                proof {
                    if expected.is_suffix_of(path@.components) {
                        let from = path@.components.len() - expected.len();
                        assert(path@.components.subrange(from, len)[left.len() - 1]
                            == path@.components[from + left.len() - 1]);
                        assert(candidate@.components.last() == piece@);
                    }
                }
                return false;
            }
            match candidate.parent() {
                Some(parent) => {
                    candidate = parent;
                },
                None => {
                    return false;
                },
            }
            proof {
                assert(candidate@.components =~= path@.components.take(len - (matched + 1)));
                assert(expected.skip(rest.len() as int) =~= seq![piece@] + expected.skip(
                    left.len() as int,
                ));
                assert(path@.components.skip(len - (matched + 1)) =~= seq![piece@]
                    + path@.components.skip(len - matched));
                assert(rest.is_prefix_of(expected));
            }
        }
    }
    proof {
        reveal(Seq::filter);
        assert(all.take(0).filter(keep) =~= Seq::empty());
        assert(expected.skip(0) =~= expected);
        assert(path@.components.skip(len - expected.len()) =~= path@.components.subrange(
            len - expected.len(),
            len,
        ));
    }
    true
}

/// Whether `path` ends in the components of one of the provider paths.
fn path_is_provider_root(path: &StandardizedPath, provider_paths: &Vec<String>) -> (found: bool)
    ensures
        found == is_provider_root(path@, text::texts(provider_paths@)),
{
    let mut i: usize = 0;
    while i < provider_paths.len()
        invariant
            i <= provider_paths.len(),
            forall|k: int|
                0 <= k < i ==> !has_component_suffix(
                    path@,
                    #[trigger] text::texts(provider_paths@)[k],
                ),
        decreases provider_paths.len() - i,
    {
        if path_has_component_suffix(path, provider_paths[i].as_str()) {
            assert(has_component_suffix(path@, text::texts(provider_paths@)[i as int]));
            return true;
        }
        i = i + 1;
    }
    false
}

/// Whether `name` is one of the given names.
fn is_one_of(name: &str, names: &Vec<String>) -> (found: bool)
    ensures
        found == text::texts(names@).contains(name@),
{
    let mut i: usize = 0;
    while i < names.len()
        invariant
            i <= names.len(),
            forall|k: int| 0 <= k < i ==> #[trigger] text::texts(names@)[k] != name@,
        decreases names.len() - i,
    {
        if text::same_text(names[i].as_str(), name) {
            assert(text::texts(names@)[i as int] == name@);
            return true;
        }
        i = i + 1;
    }
    false
}

/// Whether a query asks for the file or directory at `path`.
pub fn query_matches_path(
    path: &StandardizedPath,
    is_directory: bool,
    query: &RepoMetadataQuery,
) -> (matched: bool)
    ensures
        matched == query_matches(path@, is_directory, query@),
{
    match query {
        RepoMetadataQuery::ProjectSkillFiles { provider_paths } => {
            if is_directory {
                return path_is_provider_root(path, provider_paths);
            }
            let named = match path.file_name() {
                Some(name) => text::same_text(name, "SKILL.md"),
                None => false,
            };
            if !named {
                return false;
            }
            match path.parent() {
                Some(skill_directory) => match skill_directory.parent() {
                    Some(skills_root) => path_is_provider_root(&skills_root, provider_paths),
                    None => false,
                },
                None => false,
            }
        },
        RepoMetadataQuery::FilesNamed { names } => {
            if is_directory {
                return false;
            }
            match path.file_name() {
                Some(name) => is_one_of(name, names),
                None => false,
            }
        },
    }
}

/// Whether a query asks for a node of a tree.
pub fn repo_content_matches_query(content: &RepoContent<'_>, query: &RepoMetadataQuery) -> (matched:
    bool)
    ensures
        matched == query_matches_node(content@, query@),
{
    match content {
        RepoContent::File(file) => query_matches_path(&file.path, false, query),
        RepoContent::Directory(directory) => query_matches_path(&directory.path, true, query),
    }
}

/// Which nodes of a tree to return.
#[derive(Debug, PartialEq, Eq)]
pub struct GetContentsArgs {
    pub include_folders: bool,
    pub include_ignored: bool,
    pub filter: Option<RepoMetadataQuery>,
}

/// What [`GetContentsArgs`] ask for.
#[verifier::ext_equal]
pub struct ArgsView {
    pub include_folders: bool,
    pub include_ignored: bool,
    pub filter: Option<QueryView>,
}

impl View for GetContentsArgs {
    type V = ArgsView;

    open spec fn view(&self) -> ArgsView {
        ArgsView {
            include_folders: self.include_folders,
            include_ignored: self.include_ignored,
            filter: match self.filter {
                Some(query) => Some(query@),
                None => None,
            },
        }
    }
}

impl ArgsView {
    /// Whether a node is to be returned.
    pub open spec fn selects(self, node: NodeView) -> bool {
        &&& node is File || self.include_folders
        &&& !node.ignored() || self.include_ignored
        &&& self.filter matches Some(query) ==> query_matches_node(node, query)
    }
}

/// Arguments ask for what stands in their fields.
pub proof fn arguments_keep_every_field(args: GetContentsArgs)
    ensures
        args@.include_folders == args.include_folders,
        args@.include_ignored == args.include_ignored,
        args.filter is None ==> args@.filter is None,
        args.filter matches Some(query) ==> args@.filter == Some(query@),
{
}

/// Arguments leave directories out unless they include folders, and what is ignored unless they
/// include it; a filter leaves out what it does not match; nothing else is left out.
pub proof fn arguments_leave_out_what_they_say(
    args: ArgsView,
    path: PathView,
    ignored: bool,
    loaded: bool,
    extension: Option<Seq<char>>,
    query: QueryView,
)
    ensures
        ({
            let directory = NodeView::Directory { path, ignored, loaded };
            let file = NodeView::File { path, extension, ignored };
            let open = ArgsView { filter: None, ..args };
            let filtered = ArgsView { filter: Some(query), ..args };
            &&& open.selects(file) <==> (ignored ==> args.include_ignored)
            &&& open.selects(directory) <==> (ignored ==> args.include_ignored)
                && args.include_folders
            &&& filtered.selects(file) <==> open.selects(file) && query_matches(path, false, query)
            &&& filtered.selects(directory) <==> open.selects(directory) && query_matches(
                path,
                true,
                query,
            )
        }),
{
}

impl GetContentsArgs {
    /// Asks for everything that is not ignored, with or without directories.
    pub fn new(include_folders: bool) -> (args: GetContentsArgs)
        ensures
            args@ == (ArgsView { include_folders, include_ignored: false, filter: None }),
    {
        GetContentsArgs { include_folders, include_ignored: false, filter: None }
    }

    /// Asks for ignored nodes as well.
    pub fn include_ignored(self) -> (args: GetContentsArgs)
        ensures
            args@ == (ArgsView { include_ignored: true, ..self@ }),
    {
        GetContentsArgs {
            include_folders: self.include_folders,
            include_ignored: true,
            filter: self.filter,
        }
    }

    /// Asks for nothing but what `query` asks for.
    pub fn with_filter(self, query: RepoMetadataQuery) -> (args: GetContentsArgs)
        ensures
            args@ == (ArgsView { filter: Some(query@), ..self@ }),
    {
        GetContentsArgs {
            include_folders: self.include_folders,
            include_ignored: self.include_ignored,
            filter: Some(query),
        }
    }

    /// Whether a node is to be returned.
    pub fn selects(&self, content: &RepoContent<'_>) -> (selected: bool)
        ensures
            selected == self@.selects(content@),
    {
        let (is_file, ignored) = match content {
            RepoContent::File(file) => (true, file.ignored),
            RepoContent::Directory(directory) => (false, directory.ignored),
        };
        if !is_file && !self.include_folders {
            return false;
        }
        if ignored && !self.include_ignored {
            return false;
        }
        match &self.filter {
            Some(query) => repo_content_matches_query(content, query),
            None => true,
        }
    }
}

/// What to ask a loaded tree for in order to answer a query.
pub open spec fn loaded_query_args(query: QueryView) -> ArgsView {
    ArgsView {
        include_folders: query is ProjectSkillFiles,
        include_ignored: true,
        filter: Some(query),
    }
}

/// Asking a loaded tree selects exactly what the query asks for.
pub proof fn loaded_query_selects_the_matches(query: QueryView, node: NodeView)
    ensures
        loaded_query_args(query).selects(node) <==> query_matches_node(node, query),
{
}

/// Asking a loaded tree finds ignored files and directories like all others: what is known of a
/// node beyond its place does not matter.
pub proof fn loaded_query_finds_ignored_nodes(
    path: PathView,
    ignored: bool,
    loaded: bool,
    extension: Option<Seq<char>>,
    query: QueryView,
)
    ensures
        loaded_query_args(query).selects(NodeView::File { path, extension, ignored })
            <==> query_matches(path, false, query),
        loaded_query_args(query).selects(NodeView::Directory { path, ignored, loaded })
            <==> query_matches(path, true, query),
{
}

/// What to ask a loaded tree for in order to answer a query.
pub fn get_loaded_query_args(query: RepoMetadataQuery) -> (args: GetContentsArgs)
    ensures
        args@ == loaded_query_args(query@),
{
    let include_folders = match &query {
        RepoMetadataQuery::ProjectSkillFiles { .. } => true,
        RepoMetadataQuery::FilesNamed { .. } => false,
    };
    GetContentsArgs::new(include_folders).include_ignored().with_filter(query)
}

} // verus!
