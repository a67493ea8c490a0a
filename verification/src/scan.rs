//! Bounded authoritative discovery in a local repository.
//!
//! Whoever walks the file system hands the entries over one by one, in the order of the walk;
//! the scan decides what counts, what matches, which directories to leave out and when to stop.

use vstd::prelude::*;

use crate::node::{NodeView, OwnedRepoContent};
use crate::node;
use crate::path::{InvalidPathError, PathEncoding, PathView, StandardizedPath};
use crate::path;
use crate::query::{
    query_matches_path, QueryErrorView, QueryView, RepoContentsQueryBudget,
    RepoContentsQueryError, RepoMetadataQuery,
};
use crate::query;
use crate::sequence;
use crate::text;

verus! {

/// What a walk found at a path, without following links.
#[derive(Debug, Clone, Copy, PartialEq, Eq, Structural)]
pub enum WalkEntryKind {
    Directory,
    File,
    /// A link to a directory, and whether that directory holds a file called `SKILL.md`.
    LinkedDirectory { holds_skill_file: bool },
    /// Any other link, a socket or the like.
    Other,
}

/// One entry of a walk.
#[derive(Debug)]
pub struct WalkEntry {
    /// The path as the local machine writes it; `None` where it is not Unicode text.
    pub path: Option<String>,
    /// The entry's own name.
    pub name: String,
    pub kind: WalkEntryKind,
}

/// What a [`WalkEntry`] says.
#[verifier::ext_equal]
pub struct WalkEntryView {
    pub path: Option<Seq<char>>,
    pub name: Seq<char>,
    pub kind: WalkEntryKind,
}

impl View for WalkEntry {
    type V = WalkEntryView;

    open spec fn view(&self) -> WalkEntryView {
        WalkEntryView { path: node::optional_text(self.path), name: self.name@, kind: self.kind }
    }
}

/// An entry of a walk says what stands in its fields.
pub proof fn entries_keep_every_field(entry: WalkEntry)
    ensures
        entry.path is None ==> entry@.path is None,
        entry.path matches Some(text) ==> entry@.path == Some(text@),
        entry@.name == entry.name@,
        entry@.kind == entry.kind,
{
}

/// What a walk yields: an entry, or in words why one could not be read.
pub open spec fn item_view(item: Result<WalkEntry, String>) -> Result<WalkEntryView, Seq<char>> {
    match item {
        Ok(entry) => Ok(entry@),
        Err(message) => Err(message@),
    }
}

/// What a walk yields one after the other.
pub open spec fn item_views(items: Seq<Result<WalkEntry, String>>) -> Seq<
    Result<WalkEntryView, Seq<char>>,
> {
    items.map_values(|item: Result<WalkEntry, String>| item_view(item))
}

/// Whether an entry is the directory that Git keeps its own data in.
pub open spec fn is_git_directory(entry: WalkEntryView) -> bool {
    entry.kind == WalkEntryKind::Directory && entry.name == ".git"@
}

/// Whether an item counts against the budget.
pub open spec fn is_counted(item: Result<WalkEntryView, Seq<char>>) -> bool {
    item matches Ok(entry) && !is_git_directory(entry)
}

/// The path that a text denotes on a machine with `local` paths; a path that is no text denotes
/// none.
pub open spec fn local_path(text: Option<Seq<char>>, local: PathEncoding) -> Option<PathView> {
    match text {
        Some(text) => match path::parse_path(text) {
            Some(path) if path.root.spec_encoding() == local => Some(path),
            _ => None,
        },
        None => None,
    }
}

/// What is wrong with a path that denotes none.
pub open spec fn path_error(text: Option<Seq<char>>) -> InvalidPathError {
    if text is Some {
        InvalidPathError::NotAbsolute
    } else {
        InvalidPathError::NotUnicode
    }
}

/// Why a scan stops at item `i`, where it does: the item could not be read, the budget had been
/// used up by the items before it, or its path makes no sense.
pub open spec fn failure(
    items: Seq<Result<WalkEntryView, Seq<char>>>,
    i: int,
    budget: RepoContentsQueryBudget,
    local: PathEncoding,
) -> Option<QueryErrorView> {
    match items[i] {
        Err(message) => Some(QueryErrorView::QueryFailed { message }),
        Ok(entry) => if is_git_directory(entry) {
            None
        } else if items.take(i).filter(|item| is_counted(item)).len()
            >= budget.max_entries_scanned {
            Some(QueryErrorView::QueryBudgetExceeded { limit: budget.max_entries_scanned })
        } else if local_path(entry.path, local) is None {
            Some(QueryErrorView::QueryFailed { message: path_error(entry.path).text() })
        } else {
            None
        },
    }
}

/// What an item adds to the matches of a query.
pub open spec fn found(
    item: Result<WalkEntryView, Seq<char>>,
    query: QueryView,
    local: PathEncoding,
) -> Option<NodeView> {
    match item {
        Ok(entry) if !is_git_directory(entry) => match local_path(entry.path, local) {
            Some(path) => match entry.kind {
                WalkEntryKind::Directory => if query::query_matches(path, true, query) {
                    Some(NodeView::Directory { path, ignored: false, loaded: false })
                } else {
                    None
                },
                WalkEntryKind::File => found_file(path, query),
                WalkEntryKind::LinkedDirectory { holds_skill_file } => if holds_skill_file
                    && query is ProjectSkillFiles {
                    found_file(path.child("SKILL.md"@), query)
                } else {
                    None
                },
                WalkEntryKind::Other => None,
            },
            None => None,
        },
        _ => None,
    }
}

/// What the file at `path` adds to the matches of a query.
pub open spec fn found_file(path: PathView, query: QueryView) -> Option<NodeView> {
    if query::query_matches(path, false, query) {
        Some(NodeView::File { path, extension: path.extension(), ignored: false })
    } else {
        None
    }
}

/// The matches of a query among the items of a walk.
pub open spec fn all_found(
    items: Seq<Result<WalkEntryView, Seq<char>>>,
    query: QueryView,
    local: PathEncoding,
) -> Seq<NodeView> {
    items.filter_map(|item| found(item, query, local))
}

/// What a scan finds is found item by item, in the order of the walk.
pub proof fn items_are_searched_one_by_one(
    a: Seq<Result<WalkEntryView, Seq<char>>>,
    b: Seq<Result<WalkEntryView, Seq<char>>>,
    query: QueryView,
    local: PathEncoding,
)
    ensures
        all_found(Seq::empty(), query, local).len() == 0,
        all_found(a + b, query, local) == all_found(a, query, local) + all_found(b, query, local),
    decreases b.len(),
{
    let f = |item| found(item, query, local);
    if b.len() == 0 {
        assert(a + b =~= a);
        assert(all_found(a, query, local) + all_found(b, query, local) =~= all_found(
            a,
            query,
            local,
        ));
    } else {
        let front = b.drop_last();
        items_are_searched_one_by_one(a, front, query, local);
        assert(a + b =~= (a + front).push(b.last()));
        assert(b =~= front.push(b.last()));
        sequence::lemma_filter_map_push(a + front, b.last(), f);
        sequence::lemma_filter_map_push(front, b.last(), f);
        assert(all_found(a + b, query, local) =~= all_found(a, query, local) + all_found(
            b,
            query,
            local,
        ));
    }
}

/// A file with a sound path is found exactly if the query asks for a file at that path; a directory
/// likewise, unless it is the one that Git keeps its own data in. What is found is at that path, is
/// not known to be ignored, and a directory has not been read.
pub proof fn entries_are_found_where_the_query_asks_for_them(
    entry: WalkEntryView,
    query: QueryView,
    local: PathEncoding,
)
    requires
        local_path(entry.path, local) is Some,
    ensures
        ({
            let path = local_path(entry.path, local)->0;
            let item = all_found(
                seq![Ok::<WalkEntryView, Seq<char>>(entry)],
                query,
                local,
            );
            &&& entry.kind == WalkEntryKind::File ==> {
                &&& query::query_matches(path, false, query) ==> item == seq![
                    NodeView::File { path, extension: path.extension(), ignored: false },
                ]
                &&& !query::query_matches(path, false, query) ==> item.len() == 0
            }
            &&& entry.kind == WalkEntryKind::Directory && entry.name != ".git"@ ==> {
                &&& query::query_matches(path, true, query) ==> item == seq![
                    NodeView::Directory { path, ignored: false, loaded: false },
                ]
                &&& !query::query_matches(path, true, query) ==> item.len() == 0
            }
            &&& entry.kind == WalkEntryKind::Directory && entry.name == ".git"@ ==> item.len() == 0
            &&& entry.kind == WalkEntryKind::Other ==> item.len() == 0
            &&& entry.kind == (WalkEntryKind::LinkedDirectory { holds_skill_file: false })
                ==> item.len() == 0
            &&& entry.kind == (WalkEntryKind::LinkedDirectory { holds_skill_file: true }) ==> {
                let skill = PathView {
                    root: path.root,
                    components: path.components.push("SKILL.md"@),
                };
                &&& query is FilesNamed ==> item.len() == 0
                &&& query is ProjectSkillFiles && query::query_matches(skill, false, query)
                    ==> item == seq![
                    NodeView::File { path: skill, extension: skill.extension(), ignored: false },
                ]
                &&& !query::query_matches(skill, false, query) ==> item.len() == 0
            }
        }),
{
    let f = |item| found(item, query, local);
    let item = Ok::<WalkEntryView, Seq<char>>(entry);
    let none = Seq::<Result<WalkEntryView, Seq<char>>>::empty();
    assert(seq![item] =~= none.push(item));
    sequence::lemma_filter_map_push(none, item, f);
    assert(none.filter_map(f) =~= Seq::empty());
    if let Some(node) = found(item, query, local) {
        assert(none.filter_map(f).push(node) =~= seq![node]);
    }
}

/// An item that could not be read, or whose path makes no sense, adds nothing to what is found.
pub proof fn unsound_items_are_not_found(
    entry: WalkEntryView,
    message: Seq<char>,
    query: QueryView,
    local: PathEncoding,
)
    requires
        local_path(entry.path, local) is None,
    ensures
        all_found(seq![Ok::<WalkEntryView, Seq<char>>(entry)], query, local).len() == 0,
        all_found(seq![Err::<WalkEntryView, Seq<char>>(message)], query, local).len() == 0,
{
    let f = |item| found(item, query, local);
    let none = Seq::<Result<WalkEntryView, Seq<char>>>::empty();
    let unsound = Ok::<WalkEntryView, Seq<char>>(entry);
    let unread = Err::<WalkEntryView, Seq<char>>(message);
    assert(seq![unsound] =~= none.push(unsound));
    assert(seq![unread] =~= none.push(unread));
    sequence::lemma_filter_map_push(none, unsound, f);
    sequence::lemma_filter_map_push(none, unread, f);
}

/// A machine takes over the paths of its own platform as they are written, and no others; what is
/// no text, or not absolute, is no path.
pub proof fn machines_read_the_paths_of_their_platform(text: Seq<char>, local: PathEncoding)
    ensures
        local_path(None, local) is None,
        path::parse_path(text) is None ==> local_path(Some(text), local) is None,
        path::parse_path(text) matches Some(path) ==> {
            &&& local_path(Some(text), local) is Some <==> ((path.root is Unix) <==> local
                == PathEncoding::Unix)
            &&& local_path(Some(text), local) is Some ==> local_path(Some(text), local) == Some(
                path,
            )
        },
{
}

/// Whether a scan goes through all of the items without stopping.
pub open spec fn scans_through(
    items: Seq<Result<WalkEntryView, Seq<char>>>,
    budget: RepoContentsQueryBudget,
    local: PathEncoding,
) -> bool {
    forall|i: int|
        #![trigger items[i]]
        0 <= i < items.len() ==> failure(items, i, budget, local) is None
}

/// Whether a scan stops at item `i` and not before.
pub open spec fn stops_at(
    items: Seq<Result<WalkEntryView, Seq<char>>>,
    i: int,
    budget: RepoContentsQueryBudget,
    local: PathEncoding,
) -> bool {
    &&& 0 <= i < items.len()
    &&& failure(items, i, budget, local) is Some
    &&& scans_through(items.take(i), budget, local)
}

/// Why a repository on a machine with `local` paths cannot be scanned at all.
pub open spec fn incompatible_root(root: PathView) -> QueryErrorView {
    QueryErrorView::QueryFailed {
        message: "Local repository path has incompatible encoding: "@ + root.text(),
    }
}

/// A repository of another platform is refused by name.
pub proof fn refused_roots_are_named(root: PathView)
    ensures
        incompatible_root(root) matches QueryErrorView::QueryFailed { message } && message
            == "Local repository path has incompatible encoding: "@ + root.text(),
{
}

/// A scan that has come through some items comes through the next one unless it stops there.
proof fn lemma_scan_goes_on(
    items: Seq<Result<WalkEntryView, Seq<char>>>,
    next: Result<WalkEntryView, Seq<char>>,
    budget: RepoContentsQueryBudget,
    local: PathEncoding,
)
    requires
        scans_through(items, budget, local),
    ensures
        scans_through(items.push(next), budget, local) <==> failure(
            items.push(next),
            items.len() as int,
            budget,
            local,
        ) is None,
{
    let longer = items.push(next);
    assert forall|i: int|
        #![trigger longer[i]]
        0 <= i < items.len() implies failure(longer, i, budget, local) is None by {
        assert(longer.take(i) =~= items.take(i));
        assert(longer[i] == items[i]);
    }
    assert(longer[items.len() as int] == next);
}

/// The first items of a walk that a scan goes through are gone through as well.
proof fn lemma_scans_through_front(
    items: Seq<Result<WalkEntryView, Seq<char>>>,
    budget: RepoContentsQueryBudget,
    local: PathEncoding,
)
    requires
        items.len() > 0,
        scans_through(items, budget, local),
    ensures
        scans_through(items.drop_last(), budget, local),
        items == items.drop_last().push(items.last()),
        items.take(items.len() - 1) == items.drop_last(),
{
    let front = items.drop_last();
    assert(items =~= front.push(items.last()));
    assert(items.take(items.len() - 1) =~= front);
    assert forall|i: int|
        #![trigger front[i]]
        0 <= i < front.len() implies failure(front, i, budget, local) is None by {
        assert(front.take(i) =~= items.take(i));
        assert(front[i] == items[i]);
    }
}

/// A scan that goes through all items has not counted more of them than its budget permits.
pub proof fn scan_keeps_within_its_budget(
    items: Seq<Result<WalkEntryView, Seq<char>>>,
    budget: RepoContentsQueryBudget,
    local: PathEncoding,
)
    requires
        scans_through(items, budget, local),
    ensures
        items.filter(|item| is_counted(item)).len() <= budget.max_entries_scanned,
    decreases items.len(),
{
    if items.len() > 0 {
        lemma_scans_through_front(items, budget, local);
        scan_keeps_within_its_budget(items.drop_last(), budget, local);
        sequence::lemma_filter_push(items.drop_last(), items.last(), |item| is_counted(item));
        assert(failure(items, items.len() - 1, budget, local) is None) by {
            assert(items[items.len() - 1] == items.last());
        }
    } else {
        reveal(Seq::filter);
    }
}

/// Where every item can be read and has a path that makes sense, a scan goes through all of them
/// exactly if no more of them count than the budget permits.
pub proof fn budget_alone_decides_a_sound_walk(
    items: Seq<Result<WalkEntryView, Seq<char>>>,
    budget: RepoContentsQueryBudget,
    local: PathEncoding,
)
    requires
        forall|i: int|
            0 <= i < items.len() ==> (#[trigger] items[i] matches Ok(entry) && local_path(
                entry.path,
                local,
            ) is Some),
    ensures
        scans_through(items, budget, local) <==> items.filter(|item| is_counted(item)).len()
            <= budget.max_entries_scanned,
    decreases items.len(),
{
    if items.len() > 0 {
        let front = items.drop_last();
        assert(items =~= front.push(items.last()));
        assert(items.take(items.len() - 1) =~= front);
        assert forall|i: int| 0 <= i < front.len() implies (#[trigger] front[i] matches Ok(entry)
            && local_path(entry.path, local) is Some) by {
            assert(front[i] == items[i]);
        }
        budget_alone_decides_a_sound_walk(front, budget, local);
        sequence::lemma_filter_push(front, items.last(), |item| is_counted(item));
        assert(items[items.len() - 1] == items.last());
        if scans_through(items, budget, local) {
            scan_keeps_within_its_budget(items, budget, local);
        } else if items.filter(|item| is_counted(item)).len() <= budget.max_entries_scanned {
            lemma_scan_goes_on(front, items.last(), budget, local);
        }
    } else {
        reveal(Seq::filter);
    }
}

/// An item that could not be read stops a scan with its own words, whatever the budget. The
/// directory that Git keeps its own data in never stops one. Any other entry stops a scan exactly
/// if as many entries as the budget permits came before it, or its path makes no sense; the budget
/// is looked at first.
pub proof fn scans_stop_for_three_reasons(
    items: Seq<Result<WalkEntryView, Seq<char>>>,
    i: int,
    budget: RepoContentsQueryBudget,
    local: PathEncoding,
)
    requires
        0 <= i < items.len(),
    ensures
        ({
            let stop = failure(items, i, budget, local);
            &&& items[i] matches Err(message) ==> stop == Some(
                QueryErrorView::QueryFailed { message },
            )
            &&& items[i] matches Ok(entry) ==> {
                let is_git = entry.kind == WalkEntryKind::Directory && entry.name == ".git"@;
                let count = items.take(i).filter(|item| is_counted(item)).len();
                &&& is_git ==> stop is None
                &&& !is_git && count >= budget.max_entries_scanned ==> stop == Some(
                    QueryErrorView::QueryBudgetExceeded { limit: budget.max_entries_scanned },
                )
                &&& !is_git && count < budget.max_entries_scanned ==> {
                    &&& stop is None <==> local_path(entry.path, local) is Some
                    &&& stop is Some ==> stop->0 is QueryFailed
                }
            }
        }),
{
}

/// Every entry counts against the budget, but for directories called `.git`; what could not be read
/// does not count.
pub proof fn all_entries_but_git_directories_count(
    items: Seq<Result<WalkEntryView, Seq<char>>>,
    entry: WalkEntryView,
    message: Seq<char>,
)
    ensures
        ({
            let before = items.filter(|item| is_counted(item)).len();
            let after = items.push(Ok(entry)).filter(|item| is_counted(item)).len();
            &&& entry.kind == WalkEntryKind::Directory && entry.name == ".git"@ ==> after == before
            &&& !(entry.kind == WalkEntryKind::Directory && entry.name == ".git"@) ==> after
                == before + 1
            &&& items.push(Err(message)).filter(|item| is_counted(item)).len() == before
        }),
        Seq::<Result<WalkEntryView, Seq<char>>>::empty().filter(|item| is_counted(item)).len() == 0,
{
    sequence::lemma_filter_push(items, Ok(entry), |item| is_counted(item));
    sequence::lemma_filter_push(items, Err(message), |item| is_counted(item));
    assert(Seq::<Result<WalkEntryView, Seq<char>>>::empty().filter(|item| is_counted(item)).len()
        == 0) by {
        reveal(Seq::filter);
    }
}

/// A walk of sound entries, none of them a directory called `.git`, is gone through exactly if it
/// has no more entries than the budget permits.
pub proof fn budget_bounds_the_length_of_a_walk(
    items: Seq<Result<WalkEntryView, Seq<char>>>,
    budget: RepoContentsQueryBudget,
    local: PathEncoding,
)
    requires
        forall|i: int|
            0 <= i < items.len() ==> (#[trigger] items[i] matches Ok(entry) && local_path(
                entry.path,
                local,
            ) is Some && !(entry.kind == WalkEntryKind::Directory && entry.name == ".git"@)),
    ensures
        scans_through(items, budget, local) <==> items.len() <= budget.max_entries_scanned,
{
    budget_alone_decides_a_sound_walk(items, budget, local);
    sequence::lemma_filter_keeps_all(items, |item| is_counted(item));
}

/// A larger budget never turns an answer into a failure; what is found does not depend on the
/// budget.
pub proof fn larger_budget_keeps_the_answer(
    items: Seq<Result<WalkEntryView, Seq<char>>>,
    small: RepoContentsQueryBudget,
    large: RepoContentsQueryBudget,
    local: PathEncoding,
)
    requires
        small.max_entries_scanned <= large.max_entries_scanned,
        scans_through(items, small, local),
    ensures
        scans_through(items, large, local),
{
    assert forall|i: int|
        #![trigger items[i]]
        0 <= i < items.len() implies failure(items, i, large, local) is None by {
        assert(failure(items, i, small, local) is None);
    }
}

/// A scan stops at no more than one item, and then does not go through all of them.
pub proof fn scan_stops_once(
    items: Seq<Result<WalkEntryView, Seq<char>>>,
    i: int,
    j: int,
    budget: RepoContentsQueryBudget,
    local: PathEncoding,
)
    requires
        stops_at(items, i, budget, local),
    ensures
        stops_at(items, j, budget, local) ==> i == j,
        !scans_through(items, budget, local),
{
    assert(items[i] == items[i]);
    if stops_at(items, j, budget, local) && i < j {
        lemma_earlier_stop(items, i, j, budget, local);
    }
    if stops_at(items, j, budget, local) && j < i {
        lemma_earlier_stop(items, j, i, budget, local);
    }
}

/// A scan that would stop at an item does not come to a later one.
proof fn lemma_earlier_stop(
    items: Seq<Result<WalkEntryView, Seq<char>>>,
    i: int,
    j: int,
    budget: RepoContentsQueryBudget,
    local: PathEncoding,
)
    requires
        0 <= i < j < items.len(),
        failure(items, i, budget, local) is Some,
    ensures
        !scans_through(items.take(j), budget, local),
{
    let front = items.take(j);
    assert(front.take(i) =~= items.take(i));
    assert(front[i] == items[i]);
    assert(failure(front, i, budget, local) is Some);
}

/// Everything that a scan finds is something the query asks for.
pub proof fn matches_answer_the_query(
    items: Seq<Result<WalkEntryView, Seq<char>>>,
    query: QueryView,
    local: PathEncoding,
)
    ensures
        forall|i: int|
            0 <= i < all_found(items, query, local).len() ==> query::query_matches_node(
                #[trigger] all_found(items, query, local)[i],
                query,
            ),
    decreases items.len(),
{
    if items.len() > 0 {
        let front = items.drop_last();
        assert(items =~= front.push(items.last()));
        matches_answer_the_query(front, query, local);
        sequence::lemma_filter_map_push(front, items.last(), |item| found(item, query, local));
        let before = all_found(front, query, local);
        let all = all_found(items, query, local);
        assert forall|i: int| 0 <= i < all.len() implies query::query_matches_node(
            #[trigger] all[i],
            query,
        ) by {
            if i < before.len() {
                assert(all[i] == before[i]);
            } else {
                assert(found(items.last(), query, local) == Some(all[i]));
            }
        }
    }
}

/// Where a scan stands.
#[verifier::ext_equal]
pub struct ScanView {
    pub query: QueryView,
    pub budget: RepoContentsQueryBudget,
    pub local: PathEncoding,
    /// The items that the walk has yielded so far.
    pub seen: Seq<Result<WalkEntryView, Seq<char>>>,
}

/// A scan under way.
pub struct LocalScan {
    query: RepoMetadataQuery,
    budget: RepoContentsQueryBudget,
    local: PathEncoding,
    entries_scanned: usize,
    matches: Vec<OwnedRepoContent>,
    seen: Ghost<Seq<Result<WalkEntryView, Seq<char>>>>,
}

/// What to do after an item.
pub enum ScanStep {
    /// Go on with the walk.
    Continue(LocalScan),
    /// Go on with the walk, but leave out what is below the directory just handed over.
    SkipSubtree(LocalScan),
    /// Stop.
    Failed(RepoContentsQueryError),
}

impl View for LocalScan {
    type V = ScanView;

    closed spec fn view(&self) -> ScanView {
        ScanView { query: self.query@, budget: self.budget, local: self.local, seen: self.seen@ }
    }
}

/// What the file at `path` adds to the matches of a query.
fn match_file(path: StandardizedPath, query: &RepoMetadataQuery) -> (content: Option<
    OwnedRepoContent,
>)
    ensures
        match content {
            Some(content) => found_file(path@, query@) == Some(content@),
            None => found_file(path@, query@) is None,
        },
{
    if query_matches_path(&path, false, query) {
        let extension: Option<String> = match path.extension() {
            Some(extension) => Some(extension.to_owned()),
            None => None,
        };
        Some(OwnedRepoContent::File { path, extension, ignored: false })
    } else {
        None
    }
}

/// What the entry at `path` adds to the matches of a query.
fn match_entry(path: StandardizedPath, kind: WalkEntryKind, query: &RepoMetadataQuery) -> (content:
    Option<OwnedRepoContent>)
    ensures
        ({
            let expected = match kind {
                WalkEntryKind::Directory => if query::query_matches(path@, true, query@) {
                    Some(NodeView::Directory { path: path@, ignored: false, loaded: false })
                } else {
                    None
                },
                WalkEntryKind::File => found_file(path@, query@),
                WalkEntryKind::LinkedDirectory { holds_skill_file } => if holds_skill_file
                    && query@ is ProjectSkillFiles {
                    found_file(path@.child("SKILL.md"@), query@)
                } else {
                    None
                },
                WalkEntryKind::Other => None,
            };
            match content {
                Some(content) => expected == Some(content@),
                None => expected is None,
            }
        }),
{
    match kind {
        WalkEntryKind::Directory => {
            if query_matches_path(&path, true, query) {
                Some(OwnedRepoContent::Directory { path, ignored: false, loaded: false })
            } else {
                None
            }
        },
        WalkEntryKind::File => match_file(path, query),
        WalkEntryKind::LinkedDirectory { holds_skill_file } => {
            let is_skill_query = match query {
                RepoMetadataQuery::ProjectSkillFiles { .. } => true,
                RepoMetadataQuery::FilesNamed { .. } => false,
            };
            if !holds_skill_file || !is_skill_query {
                return None;
            }
            proof {
                reveal_strlit("SKILL.md");
            }
            match path.child("SKILL.md") {
                Some(skill_file) => match_file(skill_file, query),
                None => None,
            }
        },
        WalkEntryKind::Other => None,
    }
}

impl LocalScan {
    /// Holds of every scan under way: it has not been stopped.
    #[verifier::type_invariant]
    pub open spec fn well_formed(&self) -> bool {
        &&& scans_through(self@.seen, self@.budget, self@.local)
        &&& self.keeps_account()
    }

    pub closed spec fn keeps_account(&self) -> bool {
        &&& self.entries_scanned == self.seen@.filter(|item| is_counted(item)).len()
        &&& self.entries_scanned <= self.budget.max_entries_scanned
        &&& node::content_views(self.matches@) == all_found(self.seen@, self.query@, self.local)
    }

    /// Takes the next item of the walk.
    pub fn step(self, item: Result<WalkEntry, String>) -> (step: ScanStep)
        ensures
            ({
                let items = self@.seen.push(item_view(item));
                let stop = failure(items, self@.seen.len() as int, self@.budget, self@.local);
                match step {
                    ScanStep::Continue(scan) => {
                        &&& stop is None
                        &&& is_counted(item_view(item))
                        &&& scan@ == (ScanView { seen: items, ..self@ })
                    },
                    ScanStep::SkipSubtree(scan) => {
                        &&& stop is None
                        &&& !is_counted(item_view(item))
                        &&& scan@ == (ScanView { seen: items, ..self@ })
                    },
                    ScanStep::Failed(error) => stop == Some(error@),
                }
            }),
    {
        proof {
            use_type_invariant(&self);
        }
        let ghost taken = item_view(item);
        let ghost before = self.seen@;
        let ghost items = before.push(taken);
        proof {
            assert(items.take(before.len() as int) =~= before);
            sequence::lemma_filter_push(before, taken, |item| is_counted(item));
            lemma_scan_goes_on(before, taken, self@.budget, self@.local);
            sequence::lemma_filter_map_push(
                before,
                taken,
                |item| found(item, self@.query, self@.local),
            );
        }
        let LocalScan { query, budget, local, entries_scanned, mut matches, seen: _ } = self;
        let entry = match item {
            Ok(entry) => entry,
            Err(message) => {
                return ScanStep::Failed(RepoContentsQueryError::QueryFailed { message });
            },
        };
        let is_directory = match entry.kind {
            WalkEntryKind::Directory => true,
            _ => false,
        };
        if is_directory && text::same_text(entry.name.as_str(), ".git") {
            return ScanStep::SkipSubtree(
                LocalScan { query, budget, local, entries_scanned, matches, seen: Ghost(items) },
            );
        }
        if entries_scanned >= budget.max_entries_scanned {
            return ScanStep::Failed(
                RepoContentsQueryError::QueryBudgetExceeded { limit: budget.max_entries_scanned },
            );
        }
        let converted = match &entry.path {
            Some(text) => StandardizedPath::try_from_local(text.as_str(), local),
            None => Err(InvalidPathError::NotUnicode),
        };
        let path = match converted {
            Ok(path) => path,
            Err(error) => {
                return ScanStep::Failed(
                    RepoContentsQueryError::QueryFailed { message: error.message() },
                );
            },
        };
        let ghost known = matches@;
        if let Some(content) = match_entry(path, entry.kind, &query) {
            matches.push(content);
            assert(node::content_views(matches@) =~= node::content_views(known).push(content@));
        }
        ScanStep::Continue(
            LocalScan {
                query,
                budget,
                local,
                entries_scanned: entries_scanned + 1,
                matches,
                seen: Ghost(items),
            },
        )
    }

    /// Ends a scan whose walk has come to its end.
    pub fn finish(self) -> (matches: Vec<OwnedRepoContent>)
        ensures
            scans_through(self@.seen, self@.budget, self@.local),
            node::content_views(matches@) == all_found(self@.seen, self@.query, self@.local),
    {
        proof {
            use_type_invariant(&self);
        }
        self.matches
    }

    /// Begins a scan of the repository at `repo_root` on a machine with `local` paths.
    pub fn start(
        repo_root: &StandardizedPath,
        query: &RepoMetadataQuery,
        budget: RepoContentsQueryBudget,
        local: PathEncoding,
    ) -> (scan: Result<LocalScan, RepoContentsQueryError>)
        ensures
            match scan {
                Ok(scan) => {
                    &&& repo_root@.root.spec_encoding() == local
                    &&& scan@ == (ScanView { query: query@, budget, local, seen: Seq::empty() })
                },
                Err(error) => {
                    &&& repo_root@.root.spec_encoding() != local
                    &&& error@ == incompatible_root(repo_root@)
                },
            },
    {
        if repo_root.encoding() != local {
            let mut message: String = "Local repository path has incompatible encoding: ".to_owned();
            message.append(repo_root.as_str());
            return Err(RepoContentsQueryError::QueryFailed { message });
        }
        let matches: Vec<OwnedRepoContent> = Vec::new();
        let ghost nothing = Seq::<Result<WalkEntryView, Seq<char>>>::empty();
        proof {
            reveal(Seq::filter);
            assert(nothing.filter(|item| is_counted(item)) =~= nothing);
            assert(node::content_views(matches@) =~= all_found(nothing, query@, local));
        }
        Ok(
            LocalScan {
                query: query.clone(),
                budget,
                local,
                entries_scanned: 0,
                matches,
                seen: Ghost(nothing),
            },
        )
    }
}

/// Answers a query from a complete walk of a local repository on a machine with `local` paths.
///
/// The walk lists a directory before what is in it and leaves out what is below a directory
/// called `.git`.
pub fn query_local_repo_contents(
    repo_root: &StandardizedPath,
    query: &RepoMetadataQuery,
    budget: RepoContentsQueryBudget,
    local: PathEncoding,
    walk: Vec<Result<WalkEntry, String>>,
) -> (contents: Result<Vec<OwnedRepoContent>, RepoContentsQueryError>)
    ensures
        ({
            let items = item_views(walk@);
            match contents {
                Ok(contents) => {
                    &&& repo_root@.root.spec_encoding() == local
                    &&& scans_through(items, budget, local)
                    &&& node::content_views(contents@) == all_found(items, query@, local)
                },
                Err(error) => if repo_root@.root.spec_encoding() == local {
                    exists|i: int|
                        #![trigger items[i]]
                        {
                            &&& stops_at(items, i, budget, local)
                            &&& failure(items, i, budget, local) == Some(error@)
                        }
                } else {
                    error@ == incompatible_root(repo_root@)
                },
            }
        }),
{
    let ghost items = item_views(walk@);
    let mut scan: LocalScan = LocalScan::start(repo_root, query, budget, local)?;
    for item in iter: walk.into_iter()
        invariant
            iter.seq() == walk@,
            items == item_views(walk@),
            repo_root@.root.spec_encoding() == local,
            scan@ == (ScanView {
                query: query@,
                budget,
                local,
                seen: items.take(iter.index() as int),
            }),
    {
        let ghost i = iter.index() as int;
        proof {
            use_type_invariant(&scan);
            assert(items.take(i + 1) =~= items.take(i).push(items[i]));
            assert(failure(items.take(i + 1), i, budget, local) == failure(
                items,
                i,
                budget,
                local,
            )) by {
                assert(items.take(i + 1).take(i) =~= items.take(i));
            }
        }
        match scan.step(item) {
            ScanStep::Continue(next) => {
                scan = next;
            },
            ScanStep::SkipSubtree(next) => {
                scan = next;
            },
            ScanStep::Failed(error) => {
                assert(stops_at(items, i, budget, local));
                assert(failure(items, i, budget, local) == Some(error@));
                return Err(error);
            },
        }
    }
    assert(items.take(items.len() as int) =~= items);
    Ok(scan.finish())
}

} // verus!
