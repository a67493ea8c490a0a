//! Conversion between repository metadata and the messages that carry it.
//!
//! What is sent can always be read back. What is received is taken as far as it makes sense: a
//! node or a listing whose path is not absolute is skipped, and only a message about no
//! repository at all, or an answer to a query with a node missing, is refused.

use vstd::prelude::*;

use crate::listing;
use crate::node::{
    DirectoryNodeMetadata, FileNodeMetadata, FileTreeEntryState, NodeView, OwnedRepoContent,
    RepoNodeMetadata,
};
use crate::node;
use crate::path::{PathView, StandardizedPath};
use crate::path;
use crate::proto::{WireEntry, WireNode, WireQuery, WireResponse, WireUpdate};
use crate::proto;
use crate::query::{
    QueryErrorView, QueryView, RepoContentsQueryBudget, RepoContentsQueryError, RepoMetadataQuery,
};
use crate::sequence;
use crate::text;
use crate::tree::{FileTreeEntry, TreeView};
use crate::tree;
use crate::update::{EntryView, FileTreeEntryUpdate, RepoMetadataUpdate, UpdateView};
use crate::update;

verus! {

/// The message that carries a node.
pub open spec fn encode_node(node: NodeView) -> WireNode {
    match node {
        NodeView::Directory { path, ignored, loaded } => WireNode::Directory {
            path: path.text(),
            ignored,
            loaded,
        },
        NodeView::File { path, extension, ignored } => WireNode::File {
            path: path.text(),
            extension,
            ignored,
        },
    }
}

/// The messages that carry a sequence of nodes.
pub open spec fn encode_nodes(nodes: Seq<NodeView>) -> Seq<WireNode> {
    nodes.map_values(|node: NodeView| encode_node(node))
}

/// The message that carries a listing.
pub open spec fn encode_entry(entry: EntryView) -> WireEntry {
    WireEntry { parent: entry.parent.text(), nodes: encode_nodes(entry.nodes) }
}

/// The messages that carry a sequence of listings.
pub open spec fn encode_entries(entries: Seq<EntryView>) -> Seq<WireEntry> {
    entries.map_values(|entry: EntryView| encode_entry(entry))
}

/// The message that carries an update.
pub open spec fn encode_update(update: UpdateView) -> WireUpdate {
    WireUpdate {
        repo: update.repo.text(),
        removed: update.removed.map_values(|path: PathView| path.text()),
        entries: encode_entries(update.entries),
    }
}

/// The node that a message carries; `None` where there is none or its path is not absolute.
pub open spec fn decode_node(node: WireNode) -> Option<NodeView> {
    match node {
        WireNode::Missing => None,
        WireNode::Directory { path, ignored, loaded } => match path::parse_path(path) {
            Some(path) => Some(NodeView::Directory { path, ignored, loaded }),
            None => None,
        },
        WireNode::File { path, extension, ignored } => match path::parse_path(path) {
            Some(path) => Some(NodeView::File { path, extension, ignored }),
            None => None,
        },
    }
}

/// The listing that a message carries, without the nodes that cannot be read; `None` where the
/// directory's path is not absolute.
pub open spec fn decode_entry(entry: WireEntry) -> Option<EntryView> {
    match path::parse_path(entry.parent) {
        Some(parent) => Some(
            EntryView { parent, nodes: entry.nodes.filter_map(|node: WireNode| decode_node(node)) },
        ),
        None => None,
    }
}

/// The update that a message carries, without the paths and listings that cannot be read; `None`
/// where the repository's path is not absolute.
pub open spec fn decode_update(update: WireUpdate) -> Option<UpdateView> {
    match path::parse_path(update.repo) {
        Some(repo) => Some(
            UpdateView {
                repo,
                removed: update.removed.filter_map(|path: Seq<char>| path::parse_path(path)),
                entries: update.entries.filter_map(|entry: WireEntry| decode_entry(entry)),
            },
        ),
        None => None,
    }
}

/// The listings of a tree, level by level, without those of directories that list nothing.
pub open spec fn tree_entries(tree: TreeView) -> Seq<EntryView> {
    tree.directories().filter_map(
        |parent: PathView|
            if tree.child_nodes(parent).len() == 0 {
                None
            } else {
                Some(EntryView { parent, nodes: tree.child_nodes(parent) })
            },
    )
}

/// The message that carries a query.
pub open spec fn encode_query(query: QueryView) -> WireQuery {
    match query {
        QueryView::ProjectSkillFiles { provider_paths } => WireQuery::ProjectSkillFiles {
            provider_paths,
        },
        QueryView::FilesNamed { names } => WireQuery::FilesNamed { names },
    }
}

/// The query that a message carries.
pub open spec fn decode_query(query: WireQuery) -> Option<QueryView> {
    match query {
        WireQuery::Missing => None,
        WireQuery::ProjectSkillFiles { provider_paths } => Some(
            QueryView::ProjectSkillFiles { provider_paths },
        ),
        WireQuery::FilesNamed { names } => Some(QueryView::FilesNamed { names }),
    }
}

/// The message that answers a query with its matches.
pub open spec fn encode_response(
    matches: Seq<NodeView>,
    budget: RepoContentsQueryBudget,
) -> WireResponse {
    WireResponse {
        matches: encode_nodes(matches),
        status: proto::RepoMetadataQueryStatus::Complete.spec_code(),
        max_entries_scanned: budget.max_entries_scanned as u64,
    }
}

/// The message that answers a query whose budget did not suffice.
pub open spec fn encode_budget_exceeded(budget: RepoContentsQueryBudget) -> WireResponse {
    WireResponse {
        matches: Seq::empty(),
        status: proto::RepoMetadataQueryStatus::BudgetExceeded.spec_code(),
        max_entries_scanned: budget.max_entries_scanned as u64,
    }
}

/// Whether every message of a sequence carries a node.
pub open spec fn all_decode(nodes: Seq<WireNode>) -> bool {
    forall|i: int| 0 <= i < nodes.len() ==> decode_node(#[trigger] nodes[i]) is Some
}

/// What an answer to a query says: its matches, all of them or none.
pub open spec fn decode_response(response: WireResponse) -> Result<Seq<NodeView>, QueryErrorView> {
    if response.status == proto::RepoMetadataQueryStatus::Complete.spec_code() {
        if all_decode(response.matches) {
            Ok(response.matches.map_values(|node: WireNode| decode_node(node)->0))
        } else {
            Err(
                QueryErrorView::QueryFailed {
                    message: "remote metadata query returned an invalid match"@,
                },
            )
        }
    } else if response.status == proto::RepoMetadataQueryStatus::BudgetExceeded.spec_code() {
        Err(
            QueryErrorView::QueryBudgetExceeded {
                limit: #[verifier::truncate] (response.max_entries_scanned as usize),
            },
        )
    } else {
        Err(
            QueryErrorView::QueryFailed {
                message: "remote metadata query returned an unspecified status"@,
            },
        )
    }
}

/// The message that carries a node says of it what is known of it, field by field.
pub proof fn written_nodes_keep_every_field(node: NodeView)
    ensures
        match node {
            NodeView::Directory { path, ignored, loaded } => {
                &&& encode_node(node) is Directory
                &&& encode_node(node)->Directory_path == path.text()
                &&& encode_node(node)->Directory_ignored == ignored
                &&& encode_node(node)->Directory_loaded == loaded
            },
            NodeView::File { path, extension, ignored } => {
                &&& encode_node(node) is File
                &&& encode_node(node)->File_path == path.text()
                &&& encode_node(node)->File_extension == extension
                &&& encode_node(node)->File_ignored == ignored
            },
        },
{
}

/// The node that is read from a message is what the message says of it, field by field; a message
/// carries a node exactly if it names one and its path is absolute.
pub proof fn read_nodes_keep_every_field(
    path: Seq<char>,
    extension: Option<Seq<char>>,
    ignored: bool,
    loaded: bool,
)
    ensures
        ({
            let directory = decode_node(WireNode::Directory { path, ignored, loaded });
            let file = decode_node(WireNode::File { path, extension, ignored });
            &&& directory is Some <==> path::parse_path(path) is Some
            &&& file is Some <==> path::parse_path(path) is Some
            &&& directory is Some ==> {
                &&& directory->0 is Directory
                &&& path::parse_path(path) == Some(directory->0->Directory_path)
                &&& directory->0->Directory_ignored == ignored
                &&& directory->0->Directory_loaded == loaded
            }
            &&& file is Some ==> {
                &&& file->0 is File
                &&& path::parse_path(path) == Some(file->0->File_path)
                &&& file->0->File_extension == extension
                &&& file->0->File_ignored == ignored
            }
        }),
        decode_node(WireNode::Missing) is None,
{
}

/// Nodes that differ in anything are carried by messages that differ.
pub proof fn different_nodes_have_different_messages(a: NodeView, b: NodeView)
    requires
        a.valid(),
        b.valid(),
        encode_node(a) == encode_node(b),
    ensures
        a == b,
{
    node_round_trips(a);
    node_round_trips(b);
}

/// The message that carries a listing names the directory and carries the nodes one by one, in the
/// order that they are listed in.
pub proof fn written_listings_carry_their_nodes_in_order(entry: EntryView, i: int)
    requires
        0 <= i < entry.nodes.len(),
    ensures
        encode_entry(entry).parent == entry.parent.text(),
        encode_entry(entry).nodes.len() == entry.nodes.len(),
        encode_entry(entry).nodes[i] == encode_node(entry.nodes[i]),
{
}

/// The message that carries an update names the repository and carries the removals and the
/// listings one by one, in their order.
pub proof fn written_updates_carry_their_parts_in_order(update: UpdateView)
    ensures
        encode_update(update).repo == update.repo.text(),
        encode_update(update).removed.len() == update.removed.len(),
        encode_update(update).entries.len() == update.entries.len(),
        forall|i: int|
            0 <= i < update.removed.len() ==> #[trigger] encode_update(update).removed[i]
                == update.removed[i].text(),
        forall|i: int|
            0 <= i < update.entries.len() ==> #[trigger] encode_update(update).entries[i]
                == encode_entry(update.entries[i]),
{
}

/// A listing is read from every message that names an absolute directory, node by node: a node
/// that can be read stands behind those before it, and one that cannot is left out.
pub proof fn listings_are_read_node_by_node(
    parent: Seq<char>,
    nodes: Seq<WireNode>,
    node: WireNode,
)
    ensures
        ({
            let none = decode_entry(WireEntry { parent, nodes: Seq::empty() });
            let before = decode_entry(WireEntry { parent, nodes });
            let after = decode_entry(WireEntry { parent, nodes: nodes.push(node) });
            &&& before is Some <==> path::parse_path(parent) is Some
            &&& none is Some <==> before is Some
            &&& after is Some <==> before is Some
            &&& before is Some ==> {
                &&& path::parse_path(parent) == Some(before->0.parent)
                &&& none->0.nodes.len() == 0
                &&& after->0.parent == before->0.parent
                &&& decode_node(node) is None ==> after->0.nodes == before->0.nodes
                &&& decode_node(node) matches Some(read) ==> after->0.nodes
                    == before->0.nodes.push(read)
            }
        }),
{
    sequence::lemma_filter_map_push(nodes, node, |node: WireNode| decode_node(node));
}

/// An update is read from every message that names an absolute repository, removal by removal and
/// listing by listing: what can be read stands behind what is before it, and what cannot is left
/// out.
pub proof fn updates_are_read_part_by_part(
    update: WireUpdate,
    removed: Seq<char>,
    entry: WireEntry,
)
    ensures
        ({
            let none = decode_update(
                WireUpdate { repo: update.repo, removed: Seq::empty(), entries: Seq::empty() },
            );
            let before = decode_update(update);
            let after = decode_update(
                WireUpdate {
                    repo: update.repo,
                    removed: update.removed.push(removed),
                    entries: update.entries.push(entry),
                },
            );
            &&& before is Some <==> path::parse_path(update.repo) is Some
            &&& none is Some <==> before is Some
            &&& after is Some <==> before is Some
            &&& before is Some ==> {
                &&& path::parse_path(update.repo) == Some(before->0.repo)
                &&& none->0.removed.len() == 0
                &&& none->0.entries.len() == 0
                &&& after->0.repo == before->0.repo
                &&& path::parse_path(removed) is None ==> after->0.removed == before->0.removed
                &&& path::parse_path(removed) matches Some(path) ==> after->0.removed
                    == before->0.removed.push(path)
                &&& decode_entry(entry) is None ==> after->0.entries == before->0.entries
                &&& decode_entry(entry) matches Some(read) ==> after->0.entries
                    == before->0.entries.push(read)
            }
        }),
{
    sequence::lemma_filter_map_push(
        update.removed,
        removed,
        |path: Seq<char>| path::parse_path(path),
    );
    sequence::lemma_filter_map_push(
        update.entries,
        entry,
        |entry: WireEntry| decode_entry(entry),
    );
}

/// The message that carries a query asks for what the query asks for, in the same order, and so
/// does the query that is read from a message; a message without a query carries none.
pub proof fn queries_keep_what_they_ask_for(asked: Seq<Seq<char>>)
    ensures
        encode_query(QueryView::FilesNamed { names: asked }) is FilesNamed,
        encode_query(QueryView::FilesNamed { names: asked })->names == asked,
        encode_query(QueryView::ProjectSkillFiles { provider_paths: asked }) is ProjectSkillFiles,
        encode_query(QueryView::ProjectSkillFiles { provider_paths: asked })->provider_paths
            == asked,
        decode_query(WireQuery::FilesNamed { names: asked }) matches Some(
            QueryView::FilesNamed { names },
        ) && names == asked,
        decode_query(WireQuery::ProjectSkillFiles { provider_paths: asked }) matches Some(
            QueryView::ProjectSkillFiles { provider_paths },
        ) && provider_paths == asked,
        decode_query(WireQuery::Missing) is None,
{
}

/// The message that answers a query carries its matches one by one, in order, and the budget; the
/// message that says that the budget did not suffice carries the budget and no matches. The two
/// differ in their status, and both differ from a message whose status was not set.
pub proof fn answers_carry_matches_and_budget(
    matches: Seq<NodeView>,
    budget: RepoContentsQueryBudget,
)
    ensures
        encode_response(matches, budget).matches.len() == matches.len(),
        forall|i: int|
            0 <= i < matches.len() ==> #[trigger] encode_response(matches, budget).matches[i]
                == encode_node(matches[i]),
        encode_response(matches, budget).max_entries_scanned == budget.max_entries_scanned,
        encode_budget_exceeded(budget).matches.len() == 0,
        encode_budget_exceeded(budget).max_entries_scanned == budget.max_entries_scanned,
        encode_response(matches, budget).status != encode_budget_exceeded(budget).status,
        encode_response(matches, budget).status != 0,
        encode_budget_exceeded(budget).status != 0,
{
}

/// An answer is taken over exactly if it is marked as the complete one and every match in it can
/// be read; then it holds all of the matches, in their order. An answer with a match that cannot
/// be read is refused as a whole, a spent budget is reported with the budget that the message
/// names, and a message with any other status is refused whatever else it holds.
pub proof fn answers_are_taken_over_whole_or_not_at_all(response: WireResponse, i: int)
    ensures
        ({
            let complete = encode_response(
                Seq::empty(),
                RepoContentsQueryBudget { max_entries_scanned: 0 },
            ).status;
            let spent = encode_budget_exceeded(
                RepoContentsQueryBudget { max_entries_scanned: 0 },
            ).status;
            let answer = decode_response(response);
            &&& answer is Ok ==> response.status == complete && answer->Ok_0.len()
                == response.matches.len()
            &&& answer is Ok && 0 <= i < response.matches.len() ==> decode_node(
                response.matches[i],
            ) == Some(answer->Ok_0[i])
            &&& response.status == complete && 0 <= i < response.matches.len() && decode_node(
                response.matches[i],
            ) is None ==> answer == Err::<Seq<NodeView>, _>(
                QueryErrorView::QueryFailed {
                    message: "remote metadata query returned an invalid match"@,
                },
            )
            &&& response.status == complete && answer is Err ==> exists|k: int|
                0 <= k < response.matches.len() && decode_node(#[trigger] response.matches[k]) is None
            &&& response.status == spent && response.max_entries_scanned <= usize::MAX
                ==> answer == Err::<Seq<NodeView>, _>(
                QueryErrorView::QueryBudgetExceeded { limit: response.max_entries_scanned as usize },
            )
            &&& response.status == spent ==> (answer matches Err(error)
                && error is QueryBudgetExceeded)
            &&& response.status != complete && response.status != spent ==> answer == Err::<
                Seq<NodeView>,
                _,
            >(
                QueryErrorView::QueryFailed {
                    message: "remote metadata query returned an unspecified status"@,
                },
            )
        }),
{
}

/// A node can be read back from the message that carries it.
pub proof fn node_round_trips(node: NodeView)
    requires
        node.valid(),
    ensures
        decode_node(encode_node(node)) == Some(node),
{
    path::path_text_round_trips(node.path());
}

/// A listing can be read back from the message that carries it.
pub proof fn entry_round_trips(entry: EntryView)
    requires
        entry.valid(),
    ensures
        decode_entry(encode_entry(entry)) == Some(entry),
{
    path::path_text_round_trips(entry.parent);
    let f = |node: WireNode| decode_node(node);
    let g = |node: NodeView| encode_node(node);
    assert forall|i: int| 0 <= i < entry.nodes.len() implies f(g(#[trigger] entry.nodes[i]))
        == Some(entry.nodes[i]) by {
        node_round_trips(entry.nodes[i]);
    }
    sequence::lemma_filter_map_all(encode_nodes(entry.nodes), f, g, entry.nodes);
}

/// An update can be read back from the message that carries it.
pub proof fn update_round_trips(update: UpdateView)
    requires
        update.valid(),
    ensures
        decode_update(encode_update(update)) == Some(update),
{
    path::path_text_round_trips(update.repo);
    let f = |path: Seq<char>| path::parse_path(path);
    let g = |path: PathView| path.text();
    assert forall|i: int| 0 <= i < update.removed.len() implies f(g(#[trigger] update.removed[i]))
        == Some(update.removed[i]) by {
        path::path_text_round_trips(update.removed[i]);
    }
    sequence::lemma_filter_map_all(update.removed.map_values(g), f, g, update.removed);
    let f = |entry: WireEntry| decode_entry(entry);
    let g = |entry: EntryView| encode_entry(entry);
    assert forall|i: int| 0 <= i < update.entries.len() implies f(g(#[trigger] update.entries[i]))
        == Some(update.entries[i]) by {
        entry_round_trips(update.entries[i]);
    }
    sequence::lemma_filter_map_all(encode_entries(update.entries), f, g, update.entries);
}

/// The listings of the first directories of an order.
proof fn lemma_tree_entries(tree: TreeView, order: Seq<PathView>, f: spec_fn(PathView) -> Option<EntryView>)
    requires
        order.no_duplicates(),
        f == (|parent: PathView|
            if tree.child_nodes(parent).len() == 0 {
                None
            } else {
                Some(EntryView { parent, nodes: tree.child_nodes(parent) })
            }),
    ensures
        ({
            let entries = order.filter_map(f);
            &&& forall|i: int|
                0 <= i < entries.len() ==> {
                    &&& order.contains((#[trigger] entries[i]).parent)
                    &&& entries[i].nodes == tree.child_nodes(entries[i].parent)
                    &&& entries[i].nodes.len() > 0
                }
            &&& forall|k: int|
                0 <= k < order.len() && tree.child_nodes(#[trigger] order[k]).len() > 0
                    ==> entries.contains(
                    EntryView { parent: order[k], nodes: tree.child_nodes(order[k]) },
                )
            &&& forall|i: int, j: int|
                0 <= i < j < entries.len() ==> (#[trigger] entries[i]).parent != (
                #[trigger] entries[j]).parent
        }),
    decreases order.len(),
{
    if order.len() > 0 {
        let front = order.drop_last();
        assert(order =~= front.push(order.last()));
        lemma_tree_entries(tree, front, f);
        sequence::lemma_filter_map_push(front, order.last(), f);
        let before = front.filter_map(f);
        let entries = order.filter_map(f);
        assert forall|i: int| 0 <= i < entries.len() implies {
            &&& order.contains((#[trigger] entries[i]).parent)
            &&& entries[i].nodes == tree.child_nodes(entries[i].parent)
            &&& entries[i].nodes.len() > 0
        } by {
            if i < before.len() {
                assert(entries[i] == before[i]);
                let k = choose|k: int| 0 <= k < front.len() && front[k] == before[i].parent;
                assert(order[k] == before[i].parent);
            } else {
                assert(order[order.len() - 1] == entries[i].parent);
            }
        }
        assert forall|k: int|
            0 <= k < order.len() && tree.child_nodes(
                #[trigger] order[k],
            ).len() > 0 implies entries.contains(
            EntryView { parent: order[k], nodes: tree.child_nodes(order[k]) },
        ) by {
            let entry = EntryView { parent: order[k], nodes: tree.child_nodes(order[k]) };
            if k < front.len() {
                assert(front[k] == order[k]);
                let i = choose|i: int| 0 <= i < before.len() && before[i] == entry;
                assert(entries[i] == entry);
            } else {
                assert(entries[before.len() as int] == entry);
            }
        }
        assert forall|i: int, j: int| 0 <= i < j < entries.len() implies (
        #[trigger] entries[i]).parent != (#[trigger] entries[j]).parent by {
            assert(entries[i] == before[i]);
            if j < before.len() {
                assert(entries[j] == before[j]);
            } else {
                let k = choose|k: int| 0 <= k < front.len() && front[k] == before[i].parent;
                assert(order[k] != order[order.len() - 1]);
            }
        }
    }
}

/// A snapshot of a tree has one entry for each directory that can be reached from the root and
/// lists something, and no other: the entry holds all that the directory lists.
pub proof fn snapshot_covers_the_tree(tree: TreeView, parent: PathView)
    requires
        tree.valid(),
    ensures
        tree.reaches(tree.root, parent) && tree.child_nodes(parent).len() > 0 ==> tree_entries(
            tree,
        ).contains(EntryView { parent, nodes: tree.child_nodes(parent) }),
        forall|i: int|
            0 <= i < tree_entries(tree).len() && (#[trigger] tree_entries(tree)[i]).parent
                == parent ==> {
                &&& tree.reaches(tree.root, parent)
                &&& tree_entries(tree)[i].nodes == tree.child_nodes(parent)
                &&& tree.child_nodes(parent).len() > 0
            },
        forall|i: int, j: int|
            0 <= i < j < tree_entries(tree).len() ==> (#[trigger] tree_entries(tree)[i]).parent
                != (#[trigger] tree_entries(tree)[j]).parent,
{
    tree::breadth_first_order_exists(tree);
    tree::directories_are_the_reachable_ones(tree, parent);
    let f = |parent: PathView|
        if tree.child_nodes(parent).len() == 0 {
            None
        } else {
            Some(EntryView { parent, nodes: tree.child_nodes(parent) })
        };
    lemma_tree_entries(tree, tree.directories(), f);
}

/// A receiver can take in a snapshot entry by entry: the first entry is for the root, and every
/// other one is for a directory that an earlier entry has listed.
pub proof fn snapshot_lists_parents_first(tree: TreeView, j: int)
    requires
        tree.valid(),
        0 <= j < tree_entries(tree).len(),
    ensures
        j == 0 ==> tree_entries(tree)[j].parent == tree.root,
        j > 0 ==> exists|i: int, n: int|
            0 <= i < j && 0 <= n < tree_entries(tree)[i].nodes.len() && {
                let node = #[trigger] tree_entries(tree)[i].nodes[n];
                node is Directory && node.path() == tree_entries(tree)[j].parent
            },
{
    let order = tree.directories();
    let f = |parent: PathView|
        if tree.child_nodes(parent).len() == 0 {
            None
        } else {
            Some(EntryView { parent, nodes: tree.child_nodes(parent) })
        };
    let entries = tree_entries(tree);
    assert(entries == order.filter_map(f));
    tree::breadth_first_order_exists(tree);
    let k = sequence::lemma_filter_map_position(order, f, j);
    let parent = order[k];
    if k == 0 {
        assert(order.take(0).filter_map(f) =~= Seq::empty());
    } else {
        let source = tree::lemma_parent_comes_first(tree, order, k);
        let lister = order[source.0];
        let children = tree.children(lister);
        let state = |child: PathView| tree.state(child);
        assert(children[source.1] == parent);
        sequence::lemma_filter_map_keeps(children, state, source.1);
        let nodes = tree.child_nodes(lister);
        let n = choose|n: int| 0 <= n < nodes.len() && nodes[n] == tree.states[parent];
        assert(order.take(k)[source.0] == lister);
        sequence::lemma_filter_map_keeps(order.take(k), f, source.0);
        let early = entries.take(j);
        let listing = EntryView { parent: lister, nodes };
        let i = choose|i: int| 0 <= i < early.len() && early[i] == listing;
        assert(entries[i] == listing);
        assert(entries[i].nodes[n] == tree.states[parent]);
    }
}

/// Leaving out the directories that list nothing leaves out no node.
proof fn lemma_listed_nodes(
    tree: TreeView,
    order: Seq<PathView>,
    f: spec_fn(PathView) -> Option<EntryView>,
)
    requires
        f == (|parent: PathView|
            if tree.child_nodes(parent).len() == 0 {
                None
            } else {
                Some(EntryView { parent, nodes: tree.child_nodes(parent) })
            }),
    ensures
        order.filter_map(f).flat_map(|entry: EntryView| entry.nodes) == order.flat_map(
            |parent: PathView| tree.child_nodes(parent),
        ),
    decreases order.len(),
{
    let g = |entry: EntryView| entry.nodes;
    let h = |parent: PathView| tree.child_nodes(parent);
    if order.len() == 0 {
        sequence::lemma_flat_map_empty(g);
        sequence::lemma_flat_map_empty(h);
        assert(order =~= Seq::empty());
        assert(order.filter_map(f) =~= Seq::empty());
    } else {
        let front = order.drop_last();
        assert(order =~= front.push(order.last()));
        lemma_listed_nodes(tree, front, f);
        sequence::lemma_filter_map_push(front, order.last(), f);
        sequence::lemma_flat_map_push(front, order.last(), h);
        if tree.child_nodes(order.last()).len() == 0 {
            assert(front.flat_map(h) + tree.child_nodes(order.last()) =~= front.flat_map(h));
        } else {
            let entry = EntryView {
                parent: order.last(),
                nodes: tree.child_nodes(order.last()),
            };
            sequence::lemma_flat_map_push(front.filter_map(f), entry, g);
        }
    }
}

/// A snapshot of a tree carries every node of the tree but the root, level by level.
pub proof fn snapshot_holds_every_node(tree: TreeView)
    ensures
        tree.nodes() == seq![tree.states[tree.root]] + tree_entries(tree).flat_map(
            |entry: EntryView| entry.nodes,
        ),
{
    let f = |parent: PathView|
        if tree.child_nodes(parent).len() == 0 {
            None
        } else {
            Some(EntryView { parent, nodes: tree.child_nodes(parent) })
        };
    lemma_listed_nodes(tree, tree.directories(), f);
}

/// The nodes that a directory lists are nodes of the tree.
proof fn lemma_child_nodes_are_valid(
    tree: TreeView,
    paths: Seq<PathView>,
    f: spec_fn(PathView) -> Option<NodeView>,
)
    requires
        tree.valid(),
        f == (|child: PathView| tree.state(child)),
    ensures
        forall|i: int|
            0 <= i < paths.filter_map(f).len() ==> (#[trigger] paths.filter_map(f)[i]).valid(),
    decreases paths.len(),
{
    if paths.len() > 0 {
        let front = paths.drop_last();
        assert(paths =~= front.push(paths.last()));
        lemma_child_nodes_are_valid(tree, front, f);
        sequence::lemma_filter_map_push(front, paths.last(), f);
        assert(tree.states.contains_key(paths.last()) ==> tree.states[paths.last()].valid());
    }
}

/// A snapshot carries the listings of a tree without loss: the update read from it holds the
/// listings themselves.
pub proof fn snapshot_round_trips(repo: PathView, tree: TreeView)
    requires
        repo.valid(),
        tree.valid(),
    ensures
        decode_update(
            WireUpdate {
                repo: repo.text(),
                removed: Seq::empty(),
                entries: encode_entries(tree_entries(tree)),
            },
        ) == Some(UpdateView { repo, removed: Seq::empty(), entries: tree_entries(tree) }),
{
    let entries = tree_entries(tree);
    let update = UpdateView { repo, removed: Seq::empty(), entries };
    assert forall|i: int| 0 <= i < entries.len() implies (#[trigger] entries[i]).valid() by {
        let parent = entries[i].parent;
        snapshot_covers_the_tree(tree, parent);
        lemma_child_nodes_are_valid(
            tree,
            tree.children(parent),
            |child: PathView| tree.state(child),
        );
        let chain = choose|chain: Seq<PathView>| #[trigger]
            tree.is_descent(chain) && chain[0] == tree.root && chain.last() == parent;
        tree::lemma_descent_ends_in_directory(tree, chain);
    }
    update_round_trips(update);
    assert(encode_update(update).removed =~= Seq::empty());
}

/// A directory that another machine has read arrives as it is there: once the answer to the
/// request to load it is taken in, it has exactly the child nodes that it has in the tree of the
/// other machine, and it is marked loaded.
pub proof fn loaded_directory_arrives(
    repo: PathView,
    there: TreeView,
    here: TreeView,
    dir: PathView,
)
    requires
        repo.valid(),
        there.valid(),
        here.valid(),
        here.is_directory(dir),
        listing::is_listing(dir, there.child_nodes(dir)),
    ensures
        decode_update(
            WireUpdate {
                repo: repo.text(),
                removed: Seq::empty(),
                entries: seq![
                    encode_entry(EntryView { parent: dir, nodes: there.child_nodes(dir) }),
                ],
            },
        ) matches Some(update) && {
            let next = here.with_loaded_directories(update.entries);
            &&& next.child_nodes(dir) == there.child_nodes(dir)
            &&& next.state(dir) == Some(here.states[dir].as_loaded())
        },
{
    let entry = EntryView { parent: dir, nodes: there.child_nodes(dir) };
    let entries = seq![entry];
    let update = UpdateView { repo, removed: Seq::empty(), entries };
    lemma_child_nodes_are_valid(there, there.children(dir), |child: PathView| there.state(child));
    assert(here.states[dir].valid());
    assert(entry.valid());
    update_round_trips(update);
    assert(encode_update(update).removed =~= Seq::empty());
    assert(encode_update(update).entries =~= seq![encode_entry(entry)]);
    listing::loaded_directory_has_its_listing(here, entry);
}

/// Everything read from a message is valid.
pub proof fn decoded_node_is_valid(node: WireNode)
    ensures
        decode_node(node) matches Some(node) ==> node.valid(),
{
    match node {
        WireNode::Missing => {},
        WireNode::Directory { path, .. } => path::parsed_path_is_valid(path),
        WireNode::File { path, .. } => path::parsed_path_is_valid(path),
    }
}

/// A query can be read back from the message that carries it.
pub proof fn query_round_trips(query: QueryView)
    ensures
        decode_query(encode_query(query)) == Some(query),
{
}

/// The matches of a query can be read back from the message that answers it.
pub proof fn response_round_trips(matches: Seq<NodeView>, budget: RepoContentsQueryBudget)
    requires
        forall|i: int| 0 <= i < matches.len() ==> (#[trigger] matches[i]).valid(),
    ensures
        decode_response(encode_response(matches, budget)) == Ok::<_, QueryErrorView>(matches),
{
    let response = encode_response(matches, budget);
    assert forall|i: int| 0 <= i < matches.len() implies decode_node(
        #[trigger] response.matches[i],
    ) == Some(matches[i]) by {
        node_round_trips(matches[i]);
    }
    assert(response.matches.map_values(|node: WireNode| decode_node(node)->0) =~= matches);
}

/// That a budget did not suffice can be read back from the message that says so, with the budget.
pub proof fn budget_failure_round_trips(budget: RepoContentsQueryBudget)
    ensures
        decode_response(encode_budget_exceeded(budget)) == Err::<Seq<NodeView>, _>(
            QueryErrorView::QueryBudgetExceeded { limit: budget.max_entries_scanned },
        ),
{
}

/// The message that carries a directory.
fn directory_to_proto(directory: &DirectoryNodeMetadata) -> (node: proto::RepoNodeMetadata)
    ensures
        node@ == encode_node(directory@),
        node.node matches Some(proto::Node::Directory(message)) && {
            &&& message.path@ == directory.path@.text()
            &&& message.ignored == directory.ignored
            &&& message.loaded == directory.loaded
        },
{
    proto::RepoNodeMetadata {
        node: Some(
            proto::Node::Directory(
                proto::DirectoryNodeMetadata {
                    path: directory.path.to_string(),
                    ignored: directory.ignored,
                    loaded: directory.loaded,
                },
            ),
        ),
    }
}

/// The message that carries a file.
fn file_to_proto(file: &FileNodeMetadata) -> (node: proto::RepoNodeMetadata)
    ensures
        node@ == encode_node(file@),
        node.node matches Some(proto::Node::File(message)) && {
            &&& message.path@ == file.path@.text()
            &&& node::optional_text(message.extension) == node::optional_text(file.extension)
            &&& message.ignored == file.ignored
        },
{
    proto::RepoNodeMetadata {
        node: Some(
            proto::Node::File(
                proto::FileNodeMetadata {
                    path: file.path.to_string(),
                    extension: file.extension.clone(),
                    ignored: file.ignored,
                },
            ),
        ),
    }
}

impl From<&RepoNodeMetadata> for proto::RepoNodeMetadata {
    fn from(node: &RepoNodeMetadata) -> (message: Self)
        ensures
            message@ == encode_node(node@),
            match node {
                RepoNodeMetadata::Directory(directory) => {
                    &&& message.node matches Some(proto::Node::Directory(written))
                    &&& written.path@ == directory.path@.text()
                    &&& written.ignored == directory.ignored
                    &&& written.loaded == directory.loaded
                },
                RepoNodeMetadata::File(file) => {
                    &&& message.node matches Some(proto::Node::File(written))
                    &&& written.path@ == file.path@.text()
                    &&& node::optional_text(written.extension) == node::optional_text(
                        file.extension,
                    )
                    &&& written.ignored == file.ignored
                },
            },
    {
        match node {
            RepoNodeMetadata::Directory(directory) => directory_to_proto(directory),
            RepoNodeMetadata::File(file) => file_to_proto(file),
        }
    }
}

impl vstd::std_specs::convert::FromSpecImpl<&RepoNodeMetadata> for proto::RepoNodeMetadata {
    open spec fn obeys_from_spec() -> bool {
        false
    }

    open spec fn from_spec(node: &RepoNodeMetadata) -> Self {
        arbitrary()
    }
}

impl From<&FileTreeEntryUpdate> for proto::RepoMetadataEntryUpdate {
    fn from(update: &FileTreeEntryUpdate) -> (message: Self)
        ensures
            message@ == encode_entry(update@),
    {
        let mut subtree_metadata: Vec<proto::RepoNodeMetadata> = Vec::new();
        let mut i: usize = 0;
        while i < update.subtree_metadata.len()
            invariant
                i <= update.subtree_metadata.len(),
                proto::wire_nodes(subtree_metadata@) == encode_nodes(update@.nodes.take(i as int)),
            decreases update.subtree_metadata.len() - i,
        {
            let node = proto::RepoNodeMetadata::from(&update.subtree_metadata[i]);
            let ghost before = subtree_metadata@;
            subtree_metadata.push(node);
            proof {
                assert(proto::wire_nodes(subtree_metadata@) =~= proto::wire_nodes(before).push(
                    node@,
                ));
                assert(encode_nodes(update@.nodes.take(i + 1)) =~= encode_nodes(
                    update@.nodes.take(i as int),
                ).push(encode_node(update@.nodes[i as int])));
            }
            i = i + 1;
        }
        assert(update@.nodes.take(i as int) =~= update@.nodes);
        proto::RepoMetadataEntryUpdate {
            parent_path_to_replace: update.parent_path_to_replace.to_string(),
            subtree_metadata,
        }
    }
}

impl vstd::std_specs::convert::FromSpecImpl<&FileTreeEntryUpdate> for proto::RepoMetadataEntryUpdate {
    open spec fn obeys_from_spec() -> bool {
        false
    }

    open spec fn from_spec(update: &FileTreeEntryUpdate) -> Self {
        arbitrary()
    }
}

impl From<&RepoMetadataUpdate> for proto::RepoMetadataUpdatePush {
    fn from(update: &RepoMetadataUpdate) -> (message: Self)
        ensures
            message@ == encode_update(update@),
    {
        let ghost written = |path: PathView| path.text();
        let mut remove_entries: Vec<String> = Vec::new();
        let mut i: usize = 0;
        while i < update.remove_entries.len()
            invariant
                i <= update.remove_entries.len(),
                written == (|path: PathView| path.text()),
                text::texts(remove_entries@) == update@.removed.take(i as int).map_values(written),
            decreases update.remove_entries.len() - i,
        {
            let path: String = update.remove_entries[i].to_string();
            let ghost before = remove_entries@;
            remove_entries.push(path);
            proof {
                assert(text::texts(remove_entries@) =~= text::texts(before).push(path@));
                assert(update@.removed.take(i + 1).map_values(written) =~= update@.removed.take(
                    i as int,
                ).map_values(written).push(update@.removed[i as int].text()));
            }
            i = i + 1;
        }
        assert(update@.removed.take(i as int) =~= update@.removed);
        let mut update_entries: Vec<proto::RepoMetadataEntryUpdate> = Vec::new();
        let mut i: usize = 0;
        while i < update.update_entries.len()
            invariant
                i <= update.update_entries.len(),
                proto::wire_entries(update_entries@) == encode_entries(
                    update@.entries.take(i as int),
                ),
            decreases update.update_entries.len() - i,
        {
            let entry = proto::RepoMetadataEntryUpdate::from(&update.update_entries[i]);
            let ghost before = update_entries@;
            update_entries.push(entry);
            proof {
                assert(proto::wire_entries(update_entries@) =~= proto::wire_entries(before).push(
                    entry@,
                ));
                assert(encode_entries(update@.entries.take(i + 1)) =~= encode_entries(
                    update@.entries.take(i as int),
                ).push(encode_entry(update@.entries[i as int])));
            }
            i = i + 1;
        }
        assert(update@.entries.take(i as int) =~= update@.entries);
        proto::RepoMetadataUpdatePush {
            repo_path: update.repo_path.to_string(),
            remove_entries,
            update_entries,
        }
    }
}

impl vstd::std_specs::convert::FromSpecImpl<&RepoMetadataUpdate> for proto::RepoMetadataUpdatePush {
    open spec fn obeys_from_spec() -> bool {
        false
    }

    open spec fn from_spec(update: &RepoMetadataUpdate) -> Self {
        arbitrary()
    }
}

/// The messages that carry the nodes listed below a directory.
fn children_to_proto(entry: &FileTreeEntry, parent: &StandardizedPath) -> (nodes: Vec<
    proto::RepoNodeMetadata,
>)
    ensures
        proto::wire_nodes(nodes@) == encode_nodes(entry@.child_nodes(parent@)),
{
    let children: Vec<StandardizedPath> = entry.child_paths(parent);
    let ghost listed = tree::path_views(children@);
    let ghost state = |child: PathView| entry@.state(child);
    let mut nodes: Vec<proto::RepoNodeMetadata> = Vec::new();
    let mut i: usize = 0;
    while i < children.len()
        invariant
            i <= children.len(),
            listed == tree::path_views(children@),
            state == (|child: PathView| entry@.state(child)),
            proto::wire_nodes(nodes@) == encode_nodes(listed.take(i as int).filter_map(state)),
        decreases children.len() - i,
    {
        let ghost before = nodes@;
        let ghost kept = listed.take(i as int).filter_map(state);
        proof {
            assert(listed.take(i + 1) =~= listed.take(i as int).push(listed[i as int]));
            sequence::lemma_filter_map_push(listed.take(i as int), listed[i as int], state);
        }
        match entry.get(&children[i]) {
            Some(FileTreeEntryState::Directory(directory)) => {
                let node = directory_to_proto(directory);
                nodes.push(node);
                proof {
                    assert(proto::wire_nodes(nodes@) =~= proto::wire_nodes(before).push(node@));
                    assert(encode_nodes(kept.push(directory@)) =~= encode_nodes(kept).push(
                        encode_node(directory@),
                    ));
                }
            },
            Some(FileTreeEntryState::File(file)) => {
                let node = file_to_proto(file);
                nodes.push(node);
                proof {
                    assert(proto::wire_nodes(nodes@) =~= proto::wire_nodes(before).push(node@));
                    assert(encode_nodes(kept.push(file@)) =~= encode_nodes(kept).push(
                        encode_node(file@),
                    ));
                }
            },
            None => {},
        }
        i = i + 1;
    }
    assert(listed.take(i as int) =~= listed);
    nodes
}

/// The entries of a snapshot of a tree.
///
/// Walks the tree breadth-first from the root, with one entry per directory that lists
/// something, which holds the nodes it lists.
pub fn file_tree_entry_to_snapshot_proto(entry: &FileTreeEntry) -> (entries: Vec<
    proto::RepoMetadataEntryUpdate,
>)
    ensures
        entry@.valid(),
        proto::wire_entries(entries@) == encode_entries(tree_entries(entry@)),
{
    let order: Vec<StandardizedPath> = entry.directories();
    let ghost paths = tree::path_views(order@);
    let ghost f = |parent: PathView|
        if entry@.child_nodes(parent).len() == 0 {
            None
        } else {
            Some(EntryView { parent, nodes: entry@.child_nodes(parent) })
        };
    let mut entries: Vec<proto::RepoMetadataEntryUpdate> = Vec::new();
    let mut i: usize = 0;
    while i < order.len()
        invariant
            i <= order.len(),
            paths == tree::path_views(order@),
            f == (|parent: PathView|
                if entry@.child_nodes(parent).len() == 0 {
                    None
                } else {
                    Some(EntryView { parent, nodes: entry@.child_nodes(parent) })
                }),
            proto::wire_entries(entries@) == encode_entries(paths.take(i as int).filter_map(f)),
        decreases order.len() - i,
    {
        let ghost before = entries@;
        let ghost kept = paths.take(i as int).filter_map(f);
        let ghost nodes = entry@.child_nodes(paths[i as int]);
        proof {
            assert(paths.take(i + 1) =~= paths.take(i as int).push(paths[i as int]));
            sequence::lemma_filter_map_push(paths.take(i as int), paths[i as int], f);
        }
        let subtree_metadata: Vec<proto::RepoNodeMetadata> = children_to_proto(entry, &order[i]);
        assert(subtree_metadata@.len() == nodes.len()) by {
            assert(proto::wire_nodes(subtree_metadata@).len() == encode_nodes(nodes).len());
        }
        if subtree_metadata.len() > 0 {
            let message = proto::RepoMetadataEntryUpdate {
                parent_path_to_replace: order[i].to_string(),
                subtree_metadata,
            };
            entries.push(message);
            proof {
                let added = EntryView { parent: paths[i as int], nodes };
                assert(proto::wire_entries(entries@) =~= proto::wire_entries(before).push(
                    message@,
                ));
                assert(encode_entries(kept.push(added)) =~= encode_entries(kept).push(
                    encode_entry(added),
                ));
            }
        }
        i = i + 1;
    }
    assert(paths.take(i as int) =~= paths);
    entries
}

/// The entries of an answer to a request to load a directory: always exactly one, which holds the
/// nodes listed below the directory and replaces what was known of it even if it is empty.
pub fn file_tree_children_to_proto_entries(
    entry: &FileTreeEntry,
    dir_path: &StandardizedPath,
) -> (entries: Vec<proto::RepoMetadataEntryUpdate>)
    ensures
        proto::wire_entries(entries@) == seq![
            encode_entry(EntryView { parent: dir_path@, nodes: entry@.child_nodes(dir_path@) }),
        ],
{
    let message = proto::RepoMetadataEntryUpdate {
        parent_path_to_replace: dir_path.to_string(),
        subtree_metadata: children_to_proto(entry, dir_path),
    };
    let mut entries: Vec<proto::RepoMetadataEntryUpdate> = Vec::new();
    entries.push(message);
    assert(proto::wire_entries(entries@) =~= seq![message@]);
    entries
}

/// The node that a message carries.
pub fn proto_to_repo_node_metadata(proto_node: &proto::RepoNodeMetadata) -> (node: Option<
    RepoNodeMetadata,
>)
    ensures
        match node {
            Some(node) => decode_node(proto_node@) == Some(node@),
            None => decode_node(proto_node@) is None,
        },
        match proto_node.node {
            Some(proto::Node::Directory(message)) => match node {
                Some(RepoNodeMetadata::Directory(directory)) => {
                    &&& path::parse_path(message.path@) == Some(directory.path@)
                    &&& directory.ignored == message.ignored
                    &&& directory.loaded == message.loaded
                },
                Some(RepoNodeMetadata::File(_)) => false,
                None => path::parse_path(message.path@) is None,
            },
            Some(proto::Node::File(message)) => match node {
                Some(RepoNodeMetadata::File(file)) => {
                    &&& path::parse_path(message.path@) == Some(file.path@)
                    &&& node::optional_text(file.extension) == node::optional_text(
                        message.extension,
                    )
                    &&& file.ignored == message.ignored
                },
                Some(RepoNodeMetadata::Directory(_)) => false,
                None => path::parse_path(message.path@) is None,
            },
            None => node is None,
        },
{
    match &proto_node.node {
        Some(proto::Node::Directory(directory)) => match StandardizedPath::try_new(
            directory.path.as_str(),
        ) {
            Ok(path) => Some(
                RepoNodeMetadata::Directory(
                    DirectoryNodeMetadata {
                        path,
                        ignored: directory.ignored,
                        loaded: directory.loaded,
                    },
                ),
            ),
            Err(_) => None,
        },
        Some(proto::Node::File(file)) => match StandardizedPath::try_new(file.path.as_str()) {
            Ok(path) => Some(
                RepoNodeMetadata::File(
                    FileNodeMetadata {
                        path,
                        extension: file.extension.clone(),
                        ignored: file.ignored,
                    },
                ),
            ),
            Err(_) => None,
        },
        None => None,
    }
}

/// The listing that a message carries.
pub fn proto_to_entry_update(proto_update: &proto::RepoMetadataEntryUpdate) -> (update: Option<
    FileTreeEntryUpdate,
>)
    ensures
        match update {
            Some(update) => decode_entry(proto_update@) == Some(update@),
            None => decode_entry(proto_update@) is None,
        },
{
    let parent_path_to_replace = match StandardizedPath::try_new(
        proto_update.parent_path_to_replace.as_str(),
    ) {
        Ok(path) => path,
        Err(_) => {
            return None;
        },
    };
    let ghost f = |node: WireNode| decode_node(node);
    let ghost nodes = proto_update@.nodes;
    let mut subtree_metadata: Vec<RepoNodeMetadata> = Vec::new();
    let mut i: usize = 0;
    assert(update::node_views(subtree_metadata@) =~= nodes.take(0).filter_map(f));
    while i < proto_update.subtree_metadata.len()
        invariant
            i <= proto_update.subtree_metadata.len(),
            nodes == proto_update@.nodes,
            f == (|node: WireNode| decode_node(node)),
            update::node_views(subtree_metadata@) == nodes.take(i as int).filter_map(f),
        decreases proto_update.subtree_metadata.len() - i,
    {
        let ghost before = subtree_metadata@;
        proof {
            assert(nodes.take(i + 1) =~= nodes.take(i as int).push(nodes[i as int]));
            sequence::lemma_filter_map_push(nodes.take(i as int), nodes[i as int], f);
        }
        if let Some(node) = proto_to_repo_node_metadata(&proto_update.subtree_metadata[i]) {
            subtree_metadata.push(node);
            assert(update::node_views(subtree_metadata@) =~= update::node_views(before).push(
                node@,
            ));
        }
        i = i + 1;
    }
    assert(nodes.take(i as int) =~= nodes);
    Some(FileTreeEntryUpdate { parent_path_to_replace, subtree_metadata })
}

/// The listings that a sequence of messages carries, without those that cannot be read.
fn proto_to_entry_updates(messages: &Vec<proto::RepoMetadataEntryUpdate>) -> (updates: Vec<
    FileTreeEntryUpdate,
>)
    ensures
        update::entry_views(updates@) == proto::wire_entries(messages@).filter_map(
            |entry: WireEntry| decode_entry(entry),
        ),
{
    let ghost f = |entry: WireEntry| decode_entry(entry);
    let ghost entries = proto::wire_entries(messages@);
    let mut updates: Vec<FileTreeEntryUpdate> = Vec::new();
    let mut i: usize = 0;
    assert(update::entry_views(updates@) =~= entries.take(0).filter_map(f));
    while i < messages.len()
        invariant
            i <= messages.len(),
            entries == proto::wire_entries(messages@),
            f == (|entry: WireEntry| decode_entry(entry)),
            update::entry_views(updates@) == entries.take(i as int).filter_map(f),
        decreases messages.len() - i,
    {
        let ghost before = updates@;
        proof {
            assert(entries.take(i + 1) =~= entries.take(i as int).push(entries[i as int]));
            sequence::lemma_filter_map_push(entries.take(i as int), entries[i as int], f);
        }
        if let Some(entry) = proto_to_entry_update(&messages[i]) {
            updates.push(entry);
            assert(update::entry_views(updates@) =~= update::entry_views(before).push(entry@));
        }
        i = i + 1;
    }
    assert(entries.take(i as int) =~= entries);
    updates
}

/// The paths that a sequence of texts denotes, without those that are not absolute.
fn texts_to_paths(texts: &Vec<String>) -> (paths: Vec<StandardizedPath>)
    ensures
        tree::path_views(paths@) == text::texts(texts@).filter_map(
            |path: Seq<char>| path::parse_path(path),
        ),
{
    let ghost f = |path: Seq<char>| path::parse_path(path);
    let ghost written = text::texts(texts@);
    let mut paths: Vec<StandardizedPath> = Vec::new();
    let mut i: usize = 0;
    assert(tree::path_views(paths@) =~= written.take(0).filter_map(f));
    while i < texts.len()
        invariant
            i <= texts.len(),
            written == text::texts(texts@),
            f == (|path: Seq<char>| path::parse_path(path)),
            tree::path_views(paths@) == written.take(i as int).filter_map(f),
        decreases texts.len() - i,
    {
        let ghost before = paths@;
        proof {
            assert(written.take(i + 1) =~= written.take(i as int).push(written[i as int]));
            sequence::lemma_filter_map_push(written.take(i as int), written[i as int], f);
        }
        if let Ok(path) = StandardizedPath::try_new(texts[i].as_str()) {
            paths.push(path);
            assert(tree::path_views(paths@) =~= tree::path_views(before).push(path@));
        }
        i = i + 1;
    }
    assert(written.take(i as int) =~= written);
    paths
}

/// The update that a pushed change carries; `None` where the repository's path is not absolute.
pub fn proto_to_repo_metadata_update(push: &proto::RepoMetadataUpdatePush) -> (update: Option<
    RepoMetadataUpdate,
>)
    ensures
        match update {
            Some(update) => decode_update(push@) == Some(update@),
            None => decode_update(push@) is None,
        },
{
    match StandardizedPath::try_new(push.repo_path.as_str()) {
        Ok(repo_path) => Some(
            RepoMetadataUpdate {
                repo_path,
                remove_entries: texts_to_paths(&push.remove_entries),
                update_entries: proto_to_entry_updates(&push.update_entries),
            },
        ),
        Err(_) => None,
    }
}

/// The removals that reading a pushed change passes over, because their paths are not absolute.
pub fn skipped_removals(push: &proto::RepoMetadataUpdatePush) -> (skipped: Vec<String>)
    ensures
        text::texts(skipped@) == push@.removed.filter(
            |path: Seq<char>| path::parse_path(path) is None,
        ),
{
    let ghost passed_over = |path: Seq<char>| path::parse_path(path) is None;
    let ghost written = push@.removed;
    let mut skipped: Vec<String> = Vec::new();
    let mut i: usize = 0;
    assert(text::texts(skipped@) =~= written.take(0).filter(passed_over)) by {
        reveal(Seq::filter);
    }
    while i < push.remove_entries.len()
        invariant
            i <= push.remove_entries.len(),
            written == push@.removed,
            passed_over == (|path: Seq<char>| path::parse_path(path) is None),
            text::texts(skipped@) == written.take(i as int).filter(passed_over),
        decreases push.remove_entries.len() - i,
    {
        let ghost before = skipped@;
        proof {
            assert(written.take(i + 1) =~= written.take(i as int).push(written[i as int]));
            sequence::lemma_filter_push(written.take(i as int), written[i as int], passed_over);
        }
        if StandardizedPath::try_new(push.remove_entries[i].as_str()).is_err() {
            skipped.push(push.remove_entries[i].clone());
            assert(text::texts(skipped@) =~= text::texts(before).push(written[i as int]));
        }
        i = i + 1;
    }
    assert(written.take(i as int) =~= written);
    skipped
}

/// The update that listings carry, with no removals.
fn listings_to_update(
    repo_path: &String,
    entries: &Vec<proto::RepoMetadataEntryUpdate>,
) -> (update: Option<RepoMetadataUpdate>)
    ensures
        ({
            let message = WireUpdate {
                repo: repo_path@,
                removed: Seq::empty(),
                entries: proto::wire_entries(entries@),
            };
            match update {
                Some(update) => decode_update(message) == Some(update@),
                None => decode_update(message) is None,
            }
        }),
{
    match StandardizedPath::try_new(repo_path.as_str()) {
        Ok(repo_path) => {
            let remove_entries: Vec<StandardizedPath> = Vec::new();
            assert(tree::path_views(remove_entries@) =~= Seq::<Seq<char>>::empty().filter_map(
                |path: Seq<char>| path::parse_path(path),
            ));
            Some(
                RepoMetadataUpdate {
                    repo_path,
                    remove_entries,
                    update_entries: proto_to_entry_updates(entries),
                },
            )
        },
        Err(_) => None,
    }
}

/// The update, with no removals, that a snapshot carries; `None` where the repository's path is
/// not absolute.
pub fn proto_snapshot_to_update(snapshot: &proto::RepoMetadataSnapshot) -> (update: Option<
    RepoMetadataUpdate,
>)
    ensures
        match update {
            Some(update) => decode_update(snapshot@) == Some(update@),
            None => decode_update(snapshot@) is None,
        },
{
    listings_to_update(&snapshot.repo_path, &snapshot.entries)
}

/// The update, with no removals, that an answer to a request to load a directory carries; `None`
/// where the repository's path is not absolute.
pub fn proto_load_repo_metadata_directory_response_to_update(
    resp: &proto::LoadRepoMetadataDirectoryResponse,
) -> (update: Option<RepoMetadataUpdate>)
    ensures
        match update {
            Some(update) => decode_update(resp@) == Some(update@),
            None => decode_update(resp@) is None,
        },
{
    listings_to_update(&resp.repo_path, &resp.entries)
}

/// The message that carries a query.
pub fn repo_metadata_query_to_proto(query: RepoMetadataQuery) -> (message: proto::RepoMetadataQuery)
    ensures
        message@ == encode_query(query@),
        match query {
            RepoMetadataQuery::ProjectSkillFiles { provider_paths } => {
                &&& message.query matches Some(proto::Query::ProjectSkillFiles(written))
                &&& text::texts(written.provider_paths@) == text::texts(provider_paths@)
            },
            RepoMetadataQuery::FilesNamed { names } => {
                &&& message.query matches Some(proto::Query::FilesNamed(written))
                &&& text::texts(written.names@) == text::texts(names@)
            },
        },
{
    let query = match query {
        RepoMetadataQuery::ProjectSkillFiles { provider_paths } => proto::Query::ProjectSkillFiles(
            proto::ProjectSkillFilesQuery { provider_paths },
        ),
        RepoMetadataQuery::FilesNamed { names } => proto::Query::FilesNamed(
            proto::FilesNamedQuery { names },
        ),
    };
    proto::RepoMetadataQuery { query: Some(query) }
}

/// The query that a message carries.
pub fn proto_to_repo_metadata_query(query: &proto::RepoMetadataQuery) -> (result: Option<
    RepoMetadataQuery,
>)
    ensures
        match result {
            Some(result) => decode_query(query@) == Some(result@),
            None => decode_query(query@) is None,
        },
        match query.query {
            Some(proto::Query::ProjectSkillFiles(message)) => {
                &&& result matches Some(RepoMetadataQuery::ProjectSkillFiles { provider_paths })
                &&& text::texts(provider_paths@) == text::texts(message.provider_paths@)
            },
            Some(proto::Query::FilesNamed(message)) => {
                &&& result matches Some(RepoMetadataQuery::FilesNamed { names })
                &&& text::texts(names@) == text::texts(message.names@)
            },
            None => result is None,
        },
{
    match &query.query {
        Some(proto::Query::ProjectSkillFiles(query)) => {
            let provider_paths: Vec<String> = query.provider_paths.clone();
            assert(text::texts(provider_paths@) =~= text::texts(query.provider_paths@));
            Some(RepoMetadataQuery::ProjectSkillFiles { provider_paths })
        },
        Some(proto::Query::FilesNamed(query)) => {
            let names: Vec<String> = query.names.clone();
            assert(text::texts(names@) =~= text::texts(query.names@));
            Some(RepoMetadataQuery::FilesNamed { names })
        },
        None => None,
    }
}

/// The message that carries a match.
pub fn owned_repo_content_to_proto(content: &OwnedRepoContent) -> (node: proto::RepoNodeMetadata)
    ensures
        node@ == encode_node(content@),
        match content {
            OwnedRepoContent::Directory { path, ignored, loaded } => {
                &&& node.node matches Some(proto::Node::Directory(message))
                &&& message.path@ == path@.text()
                &&& message.ignored == ignored
                &&& message.loaded == loaded
            },
            OwnedRepoContent::File { path, extension, ignored } => {
                &&& node.node matches Some(proto::Node::File(message))
                &&& message.path@ == path@.text()
                &&& node::optional_text(message.extension) == node::optional_text(*extension)
                &&& message.ignored == ignored
            },
        },
{
    let node = match content {
        OwnedRepoContent::Directory { path, ignored, loaded } => proto::Node::Directory(
            proto::DirectoryNodeMetadata {
                path: path.to_string(),
                ignored: *ignored,
                loaded: *loaded,
            },
        ),
        OwnedRepoContent::File { path, extension, ignored } => proto::Node::File(
            proto::FileNodeMetadata {
                path: path.to_string(),
                extension: extension.clone(),
                ignored: *ignored,
            },
        ),
    };
    proto::RepoNodeMetadata { node: Some(node) }
}

/// The match that a message carries.
pub fn proto_to_owned_repo_content(node: &proto::RepoNodeMetadata) -> (content: Option<
    OwnedRepoContent,
>)
    ensures
        match content {
            Some(content) => decode_node(node@) == Some(content@),
            None => decode_node(node@) is None,
        },
        match node.node {
            Some(proto::Node::Directory(message)) => match content {
                Some(OwnedRepoContent::Directory { path, ignored, loaded }) => {
                    &&& path::parse_path(message.path@) == Some(path@)
                    &&& ignored == message.ignored
                    &&& loaded == message.loaded
                },
                Some(OwnedRepoContent::File { .. }) => false,
                None => path::parse_path(message.path@) is None,
            },
            Some(proto::Node::File(message)) => match content {
                Some(OwnedRepoContent::File { path, extension, ignored }) => {
                    &&& path::parse_path(message.path@) == Some(path@)
                    &&& node::optional_text(extension) == node::optional_text(message.extension)
                    &&& ignored == message.ignored
                },
                Some(OwnedRepoContent::Directory { .. }) => false,
                None => path::parse_path(message.path@) is None,
            },
            None => content is None,
        },
{
    match proto_to_repo_node_metadata(node) {
        Some(RepoNodeMetadata::Directory(directory)) => Some(
            OwnedRepoContent::Directory {
                path: directory.path,
                ignored: directory.ignored,
                loaded: directory.loaded,
            },
        ),
        Some(RepoNodeMetadata::File(file)) => Some(
            OwnedRepoContent::File {
                path: file.path,
                extension: file.extension,
                ignored: file.ignored,
            },
        ),
        None => None,
    }
}

/// The message that answers a query with its matches.
pub fn query_repo_metadata_response_to_proto(
    matches: &[OwnedRepoContent],
    budget: RepoContentsQueryBudget,
) -> (response: proto::QueryRepoMetadataResponse)
    ensures
        response@ == encode_response(node::content_views(matches@), budget),
{
    let ghost contents = node::content_views(matches@);
    let mut nodes: Vec<proto::RepoNodeMetadata> = Vec::new();
    let mut i: usize = 0;
    while i < matches.len()
        invariant
            i <= matches.len(),
            contents == node::content_views(matches@),
            proto::wire_nodes(nodes@) == encode_nodes(contents.take(i as int)),
        decreases matches.len() - i,
    {
        let message = owned_repo_content_to_proto(&matches[i]);
        let ghost before = nodes@;
        nodes.push(message);
        proof {
            assert(proto::wire_nodes(nodes@) =~= proto::wire_nodes(before).push(message@));
            assert(encode_nodes(contents.take(i + 1)) =~= encode_nodes(
                contents.take(i as int),
            ).push(encode_node(contents[i as int])));
        }
        i = i + 1;
    }
    assert(contents.take(i as int) =~= contents);
    proto::QueryRepoMetadataResponse {
        matches: nodes,
        status: proto::RepoMetadataQueryStatus::Complete.code(),
        max_entries_scanned: budget.max_entries_scanned as u64,
    }
}

/// The message that answers a query whose budget did not suffice.
pub fn query_repo_metadata_budget_exceeded_response_to_proto(
    budget: RepoContentsQueryBudget,
) -> (response: proto::QueryRepoMetadataResponse)
    ensures
        response@ == encode_budget_exceeded(budget),
{
    let matches: Vec<proto::RepoNodeMetadata> = Vec::new();
    assert(proto::wire_nodes(matches@) =~= Seq::empty());
    proto::QueryRepoMetadataResponse {
        matches,
        status: proto::RepoMetadataQueryStatus::BudgetExceeded.code(),
        max_entries_scanned: budget.max_entries_scanned as u64,
    }
}

/// The matches of a sequence of messages; `None` where one of them cannot be read.
fn proto_to_contents(messages: &Vec<proto::RepoNodeMetadata>) -> (contents: Option<
    Vec<OwnedRepoContent>,
>)
    ensures
        match contents {
            Some(contents) => {
                &&& all_decode(proto::wire_nodes(messages@))
                &&& node::content_views(contents@) == proto::wire_nodes(messages@).map_values(
                    |node: WireNode| decode_node(node)->0,
                )
            },
            None => !all_decode(proto::wire_nodes(messages@)),
        },
{
    let ghost nodes = proto::wire_nodes(messages@);
    let mut contents: Vec<OwnedRepoContent> = Vec::new();
    let mut i: usize = 0;
    while i < messages.len()
        invariant
            i <= messages.len(),
            i == contents@.len(),
            nodes == proto::wire_nodes(messages@),
            forall|k: int|
                0 <= k < i ==> decode_node(#[trigger] nodes[k]) == Some(
                    node::content_views(contents@)[k],
                ),
        decreases messages.len() - i,
    {
        let ghost before = contents@;
        match proto_to_owned_repo_content(&messages[i]) {
            Some(content) => {
                contents.push(content);
                proof {
                    assert(node::content_views(contents@) =~= node::content_views(before).push(
                        content@,
                    ));
                    assert(decode_node(nodes[i as int]) == Some(content@));
                }
            },
            None => {
                assert(decode_node(nodes[i as int]) is None);
                return None;
            },
        }
        i = i + 1;
    }
    assert(node::content_views(contents@) =~= nodes.map_values(
        |node: WireNode| decode_node(node)->0,
    ));
    Some(contents)
}

/// What an answer to a query says.
pub fn proto_query_repo_metadata_response_to_contents(
    response: &proto::QueryRepoMetadataResponse,
) -> (contents: Result<Vec<OwnedRepoContent>, RepoContentsQueryError>)
    ensures
        match contents {
            Ok(contents) => decode_response(response@) == Ok::<_, QueryErrorView>(
                node::content_views(contents@),
            ),
            Err(error) => decode_response(response@) == Err::<Seq<NodeView>, _>(error@),
        },
{
    match proto::RepoMetadataQueryStatus::from_code(response.status) {
        Some(proto::RepoMetadataQueryStatus::Complete) => match proto_to_contents(
            &response.matches,
        ) {
            Some(contents) => Ok(contents),
            None => Err(
                RepoContentsQueryError::QueryFailed {
                    message: "remote metadata query returned an invalid match".to_owned(),
                },
            ),
        },
        Some(proto::RepoMetadataQueryStatus::BudgetExceeded) => Err(
            RepoContentsQueryError::QueryBudgetExceeded {
                limit: #[verifier::truncate] (response.max_entries_scanned as usize),
            },
        ),
        Some(proto::RepoMetadataQueryStatus::Unspecified) | None => Err(
            RepoContentsQueryError::QueryFailed {
                message: "remote metadata query returned an unspecified status".to_owned(),
            },
        ),
    }
}

} // verus!
