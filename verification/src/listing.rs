//! Replacing what directories of a tree list.

use vstd::prelude::*;

use crate::node::{FileTreeEntryState, NodeView, RepoNodeMetadata};
use crate::path::{PathView, StandardizedPath};
use crate::path;
use crate::sequence;
use crate::tree::{lists, FileTreeEntry, TreeView};
use crate::update::{EntryView, FileTreeEntryUpdate};
use crate::update;

verus! {

/// The paths of the nodes of a sequence.
pub open spec fn node_paths(nodes: Seq<NodeView>) -> Seq<PathView> {
    nodes.map_values(|node: NodeView| node.path())
}

/// The nodes of a sequence.
pub open spec fn state_nodes(states: Seq<FileTreeEntryState>) -> Seq<NodeView> {
    states.map_values(|state: FileTreeEntryState| state@)
}

/// The nodes that `parent` lists where it is told to list `nodes`: its immediate children among
/// them, each path once.
pub open spec fn immediate_children(parent: PathView, nodes: Seq<NodeView>) -> Seq<NodeView>
    decreases nodes.len(),
{
    if nodes.len() == 0 {
        nodes
    } else {
        let before = immediate_children(parent, nodes.drop_last());
        let node = nodes.last();
        if node.path().parent() == Some(parent) && !node_paths(before).contains(node.path()) {
            before.push(node)
        } else {
            before
        }
    }
}

/// Whether `nodes` are immediate children of `parent`, each path once.
pub open spec fn is_listing(parent: PathView, nodes: Seq<NodeView>) -> bool {
    &&& forall|i: int|
        0 <= i < nodes.len() ==> (#[trigger] nodes[i]).path().parent() == Some(parent)
    &&& node_paths(nodes).no_duplicates()
}

/// Whether `path` is one of the directories among `nodes`, or lies in one.
pub open spec fn lies_in_a_directory(nodes: Seq<NodeView>, path: PathView) -> bool {
    exists|i: int|
        0 <= i < nodes.len() && (#[trigger] nodes[i]) is Directory && path::lies_in(
            path,
            nodes[i].path(),
        )
}

/// Whether nothing is kept at `path` where `parent` lists `nodes` from now on: it lies below
/// `parent`, but in none of the directories listed there.
pub open spec fn is_dropped(parent: PathView, nodes: Seq<NodeView>, path: PathView) -> bool {
    path.strictly_below(parent) && !lies_in_a_directory(nodes, path)
}

/// The nodes of a tree in which `parent` lists `nodes` from now on.
pub open spec fn states_after(
    states: Map<PathView, NodeView>,
    parent: PathView,
    nodes: Seq<NodeView>,
) -> Map<PathView, NodeView> {
    let paths = node_paths(nodes);
    Map::new(
        |path: PathView|
            paths.contains(path) || (states.contains_key(path) && !is_dropped(parent, nodes, path)),
        |path: PathView|
            if paths.contains(path) {
                nodes[paths.index_of(path)]
            } else {
                states[path]
            },
    )
}

/// What another directory goes on listing where `parent` lists `nodes` from now on.
pub open spec fn children_after(
    children: Seq<PathView>,
    parent: PathView,
    nodes: Seq<NodeView>,
) -> Seq<PathView> {
    children.filter(
        |child: PathView| !is_dropped(parent, nodes, child) && !node_paths(nodes).contains(child),
    )
}

/// The listings of a tree in which `parent` lists `nodes` from now on.
pub open spec fn listings_after(
    listings: Map<PathView, Seq<PathView>>,
    parent: PathView,
    nodes: Seq<NodeView>,
) -> Map<PathView, Seq<PathView>> {
    Map::new(
        |dir: PathView|
            dir == parent || (listings.contains_key(dir) && !is_dropped(parent, nodes, dir)),
        |dir: PathView|
            if dir == parent {
                node_paths(nodes)
            } else {
                children_after(listings[dir], parent, nodes)
            },
    )
}

/// Whether one of the entries is for the directory `path`.
pub open spec fn has_entry(entries: Seq<EntryView>, path: PathView) -> bool {
    exists|i: int| 0 <= i < entries.len() && (#[trigger] entries[i]).parent == path
}

impl NodeView {
    /// The node, a directory with its children read.
    pub open spec fn as_loaded(self) -> NodeView {
        match self {
            NodeView::Directory { path, ignored, .. } => {
                NodeView::Directory { path, ignored, loaded: true }
            },
            NodeView::File { .. } => self,
        }
    }
}

impl TreeView {
    /// The tree in which `parent` lists exactly `nodes`. What else was below `parent` is dropped,
    /// but for what lies in the directories that are listed now.
    pub open spec fn with_listing(self, parent: PathView, nodes: Seq<NodeView>) -> TreeView {
        TreeView {
            root: self.root,
            states: states_after(self.states, parent, nodes),
            listings: listings_after(self.listings, parent, nodes),
        }
    }

    /// The tree with the listing of one directory replaced; the same tree where it has no such
    /// directory.
    pub open spec fn with_entry(self, entry: EntryView) -> TreeView {
        if self.is_directory(entry.parent) {
            self.with_listing(entry.parent, immediate_children(entry.parent, entry.nodes))
        } else {
            self
        }
    }

    /// The tree with the listings of some directories replaced, one after the other.
    pub open spec fn with_entries(self, entries: Seq<EntryView>) -> TreeView
        decreases entries.len(),
    {
        if entries.len() == 0 {
            self
        } else {
            self.with_entries(entries.drop_last()).with_entry(entries.last())
        }
    }

    /// The tree in which `path` is marked loaded, if it is a directory with a listing.
    pub open spec fn marked(self, path: PathView) -> TreeView {
        if self.listings.contains_key(path) && self.states.contains_key(path) {
            TreeView {
                states: self.states.insert(path, self.states[path].as_loaded()),
                ..self
            }
        } else {
            self
        }
    }

    /// The tree in which the directories that have both an entry and a listing are marked loaded.
    pub open spec fn with_loaded(self, entries: Seq<EntryView>) -> TreeView {
        TreeView {
            states: self.states.map_entries(
                |path: PathView, node: NodeView|
                    if has_entry(entries, path) && self.listings.contains_key(path) {
                        node.as_loaded()
                    } else {
                        node
                    },
            ),
            ..self
        }
    }

    /// The tree after the directories of `entries` were loaded: each lists what its entry holds
    /// and is marked loaded.
    pub open spec fn with_loaded_directories(self, entries: Seq<EntryView>) -> TreeView {
        self.with_entries(entries).with_loaded(entries)
    }
}

/// What a directory lists are immediate children, each path once; where the nodes are so already,
/// it lists all of them.
pub proof fn immediate_children_are_a_listing(parent: PathView, nodes: Seq<NodeView>)
    ensures
        is_listing(parent, immediate_children(parent, nodes)),
        is_listing(parent, nodes) ==> immediate_children(parent, nodes) == nodes,
        forall|i: int|
            0 <= i < immediate_children(parent, nodes).len() ==> nodes.contains(
                #[trigger] immediate_children(parent, nodes)[i],
            ),
    decreases nodes.len(),
{
    if nodes.len() > 0 {
        let front = nodes.drop_last();
        let before = immediate_children(parent, front);
        let kept = immediate_children(parent, nodes);
        let node = nodes.last();
        immediate_children_are_a_listing(parent, front);
        assert forall|i: int| 0 <= i < kept.len() implies (#[trigger] kept[i]).path().parent()
            == Some(parent) && nodes.contains(kept[i]) by {
            if i < before.len() {
                assert(before[i] == kept[i]);
                let k = choose|k: int| 0 <= k < front.len() && front[k] == before[i];
                assert(nodes[k] == kept[i]);
            } else {
                assert(nodes[nodes.len() - 1] == kept[i]);
            }
        }
        assert forall|i: int, j: int|
            0 <= i < kept.len() && 0 <= j < kept.len() && i != j implies node_paths(kept)[i]
            != node_paths(kept)[j] by {
            if i < before.len() {
                assert(node_paths(before)[i] == node_paths(kept)[i]);
            }
            if j < before.len() {
                assert(node_paths(before)[j] == node_paths(kept)[j]);
            }
        }
        if is_listing(parent, nodes) {
            assert forall|i: int| 0 <= i < front.len() implies (
            #[trigger] front[i]).path().parent() == Some(parent) by {
                assert(front[i] == nodes[i]);
            }
            assert forall|i: int, j: int|
                0 <= i < front.len() && 0 <= j < front.len() && i != j implies node_paths(front)[i]
                != node_paths(front)[j] by {
                assert(node_paths(nodes)[i] != node_paths(nodes)[j]);
            }
            if node_paths(front).contains(node.path()) {
                let i = choose|i: int|
                    0 <= i < front.len() && node_paths(front)[i] == node.path();
                assert(node_paths(nodes)[i] == node_paths(nodes)[nodes.len() - 1]);
            }
            assert(nodes[nodes.len() - 1].path().parent() == Some(parent));
            assert(front.push(node) =~= nodes);
        }
    }
}

/// A directory takes over the nodes that it is told to list one by one: a node that is called by
/// one name below it, if no node at that path was taken over before; all others are left out.
pub proof fn listed_nodes_are_taken_over_one_by_one(
    parent: PathView,
    nodes: Seq<NodeView>,
    node: NodeView,
    name: Seq<char>,
)
    ensures
        ({
            let before = immediate_children(parent, nodes);
            let after = immediate_children(parent, nodes.push(node));
            let is_child = node.path() == (PathView {
                root: parent.root,
                components: parent.components.push(name),
            });
            let is_known = exists|i: int|
                0 <= i < before.len() && (#[trigger] before[i]).path() == node.path();
            &&& immediate_children(parent, Seq::empty()).len() == 0
            &&& is_child && !is_known ==> after == before.push(node)
            &&& is_known ==> after == before
            &&& node.path().root != parent.root || node.path().components.len()
                != parent.components.len() + 1 || !node.path().strictly_below(parent) ==> after
                == before
        }),
{
    assert(nodes.push(node).drop_last() =~= nodes);
    let before = immediate_children(parent, nodes);
    let paths = node_paths(before);
    assert(parent.components.push(name).drop_last() =~= parent.components);
    if paths.contains(node.path()) {
        let i = choose|i: int| 0 <= i < paths.len() && paths[i] == node.path();
        assert(before[i].path() == node.path());
    }
    if exists|i: int| 0 <= i < before.len() && (#[trigger] before[i]).path() == node.path() {
        let i = choose|i: int| 0 <= i < before.len() && (#[trigger] before[i]).path() == node.path();
        assert(paths[i] == node.path());
    }
    if node.path().parent() == Some(parent) {
        path::parent_is_the_nearest_above(node.path(), parent, parent);
    }
}

/// Once a directory lists some nodes, the tree holds those nodes as they are. What lies elsewhere
/// below the directory is kept where it lies in a directory that is listed, and is gone where it
/// does not; what does not lie below the directory is as it was.
pub proof fn replaced_listings_keep_what_lies_in_listed_directories(
    tree: TreeView,
    parent: PathView,
    nodes: Seq<NodeView>,
    path: PathView,
)
    requires
        is_listing(parent, nodes),
    ensures
        ({
            let next = tree.with_listing(parent, nodes);
            &&& next.root == tree.root
            &&& next.children(parent).len() == nodes.len()
            &&& forall|i: int|
                0 <= i < nodes.len() ==> {
                    &&& next.state((#[trigger] nodes[i]).path()) == Some(nodes[i])
                    &&& next.children(parent)[i] == nodes[i].path()
                }
            &&& !path.strictly_below(parent) ==> next.state(path) == tree.state(path)
            &&& forall|i: int|
                0 <= i < nodes.len() && (#[trigger] nodes[i]) is Directory && path.strictly_below(
                    nodes[i].path(),
                ) ==> next.state(path) == tree.state(path)
            &&& path.strictly_below(parent) && (forall|i: int|
                0 <= i < nodes.len() ==> (#[trigger] nodes[i]).path() != path && !(
                nodes[i] is Directory && path.strictly_below(nodes[i].path()))) ==> next.state(
                path,
            ) is None
        }),
{
    let next = tree.with_listing(parent, nodes);
    let paths = node_paths(nodes);
    lemma_listing_is_held(tree, parent, nodes);
    assert forall|i: int| 0 <= i < nodes.len() implies {
        &&& next.state((#[trigger] nodes[i]).path()) == Some(nodes[i])
        &&& next.children(parent)[i] == nodes[i].path()
    } by {
        assert(paths[i] == nodes[i].path());
    }
    if paths.contains(path) {
        let k = choose|k: int| 0 <= k < paths.len() && paths[k] == path;
        assert(nodes[k].path() == path);
        path::parent_is_the_nearest_above(path, parent, parent);
        assert forall|i: int|
            0 <= i < nodes.len() && (#[trigger] nodes[i]) is Directory implies !path.strictly_below(
            nodes[i].path(),
        ) by {
            assert(nodes[i].path().parent() == nodes[k].path().parent());
        }
    }
    assert forall|i: int|
        0 <= i < nodes.len() && (#[trigger] nodes[i]) is Directory && path.strictly_below(
            nodes[i].path(),
        ) implies next.state(path) == tree.state(path) by {
        assert(path::lies_in(path, nodes[i].path()));
        assert(lies_in_a_directory(nodes, path));
    }
}

/// Marking a directory loaded changes that mark and nothing else; a file stays as it is.
pub proof fn marking_changes_one_field(
    path: PathView,
    ignored: bool,
    loaded: bool,
    extension: Option<Seq<char>>,
)
    ensures
        (NodeView::Directory { path, ignored, loaded }).as_loaded() == (NodeView::Directory {
            path,
            ignored,
            loaded: true,
        }),
        (NodeView::File { path, extension, ignored }).as_loaded() == (NodeView::File {
            path,
            extension,
            ignored,
        }),
{
}

/// An entry for a path that is no directory of the tree changes nothing.
pub proof fn entries_for_unknown_directories_change_nothing(tree: TreeView, entry: EntryView)
    requires
        !tree.is_directory(entry.parent),
        tree.valid(),
    ensures
        tree.with_loaded_directories(seq![entry]) == tree,
        tree.with_loaded_directories(Seq::empty()) == tree,
{
    let entries = seq![entry];
    let none = Seq::<EntryView>::empty();
    assert(entries.drop_last() =~= none);
    assert(tree.with_entries(none) == tree);
    assert(tree.with_entries(entries) == tree);
    assert forall|path: PathView| has_entry(entries, path) implies path == entry.parent by {}
    assert(tree.with_loaded(entries).states =~= tree.states);
    assert(tree.with_loaded(none).states =~= tree.states);
}

/// A path that is listed once a listing was replaced is one that the new listing holds, or one that
/// another directory listed before and that is kept.
proof fn lemma_listed(
    tree: TreeView,
    parent: PathView,
    nodes: Seq<NodeView>,
    dir: PathView,
    i: int,
    child: PathView,
) -> (j: int)
    requires
        dir != parent,
        lists(tree.with_listing(parent, nodes), dir, i, child),
    ensures
        lists(tree, dir, j, child),
        !is_dropped(parent, nodes, dir),
        !is_dropped(parent, nodes, child),
        !node_paths(nodes).contains(child),
{
    let keep = |child: PathView|
        !is_dropped(parent, nodes, child) && !node_paths(nodes).contains(child);
    let listed = tree.listings[dir];
    assert(tree.with_listing(parent, nodes).listings[dir] == listed.filter(keep));
    listed.lemma_filter_pred(keep, i);
    listed.lemma_filter_contains_rev(keep, child);
    choose|j: int| 0 <= j < listed.len() && listed[j] == child
}

/// Whether only directories of the tree have listings.
pub open spec fn only_directories_list(tree: TreeView) -> bool {
    forall|dir: PathView| #[trigger] tree.listings.contains_key(dir) ==> tree.is_directory(dir)
}

/// Replacing the listing of a directory gives listings to directories only.
proof fn lemma_only_directories_list(tree: TreeView, parent: PathView, nodes: Seq<NodeView>)
    requires
        only_directories_list(tree),
        tree.is_directory(parent),
        is_listing(parent, nodes),
    ensures
        only_directories_list(tree.with_listing(parent, nodes)),
{
    let next = tree.with_listing(parent, nodes);
    assert forall|dir: PathView| #[trigger] next.listings.contains_key(
        dir,
    ) implies next.is_directory(dir) by {
        assert(tree.is_directory(dir)) by {
            if dir != parent {
                assert(tree.listings.contains_key(dir));
            }
        }
        lemma_directory_stays(tree, parent, nodes, dir);
    }
}

/// Replacing the listings of directories gives listings to directories only.
proof fn lemma_only_directories_list_after_entries(tree: TreeView, entries: Seq<EntryView>)
    requires
        only_directories_list(tree),
    ensures
        only_directories_list(tree.with_entries(entries)),
    decreases entries.len(),
{
    if entries.len() > 0 {
        let entry = entries.last();
        let before = tree.with_entries(entries.drop_last());
        lemma_only_directories_list_after_entries(tree, entries.drop_last());
        immediate_children_are_a_listing(entry.parent, entry.nodes);
        if before.is_directory(entry.parent) {
            lemma_only_directories_list(
                before,
                entry.parent,
                immediate_children(entry.parent, entry.nodes),
            );
        }
    }
}

/// Replacing the listing of a directory keeps the tree valid.
pub proof fn with_listing_is_valid(tree: TreeView, parent: PathView, nodes: Seq<NodeView>)
    requires
        tree.valid(),
        tree.is_directory(parent),
        is_listing(parent, nodes),
        forall|i: int| 0 <= i < nodes.len() ==> (#[trigger] nodes[i]).valid(),
    ensures
        tree.with_listing(parent, nodes).valid(),
{
    let next = tree.with_listing(parent, nodes);
    let paths = node_paths(nodes);
    assert forall|i: int| 0 <= i < nodes.len() implies {
        &&& (#[trigger] nodes[i]).path().strictly_below(parent)
        &&& nodes[i].path().strictly_below(tree.root)
    } by {
        path::parent_is_the_nearest_above(nodes[i].path(), parent, parent);
        path::parent_is_the_nearest_above(nodes[i].path(), parent, tree.root);
    }
    assert forall|path: PathView| paths.contains(path) implies {
        let i = paths.index_of(path);
        &&& 0 <= i < nodes.len()
        &&& nodes[i].path() == path
        &&& next.states.contains_key(path)
        &&& next.states[path] == nodes[i]
    } by {
        let i = paths.index_of(path);
        assert(paths[i] == path);
    }
    assert(next.states.dom().subset_of(tree.states.dom().union(paths.to_set())));
    assert forall|path: PathView| #[trigger] next.states.contains_key(path) implies {
        &&& next.states[path].path() == path
        &&& path.valid()
        &&& path == next.root || path.strictly_below(next.root)
    } by {
        if !paths.contains(path) {
            assert(tree.states.contains_key(path));
        }
    }
    assert(next.is_directory(tree.root)) by {
        if paths.contains(tree.root) {
            let i = paths.index_of(tree.root);
            assert(nodes[i].path().strictly_below(tree.root));
        }
        if tree.root.strictly_below(parent) && parent != tree.root {
            assert(parent.strictly_below(tree.root));
        }
    }
    lemma_only_directories_list(tree, parent, nodes);
    assert forall|dir: PathView, i: int, child: PathView| #[trigger]
        lists(next, dir, i, child) implies child.strictly_below(dir) by {
        if dir != parent {
            let j = lemma_listed(tree, parent, nodes, dir, i, child);
            assert(lists(tree, dir, j, child));
        } else {
            assert(nodes[i].path() == child);
        }
    }
    assert forall|a: PathView, i: int, b: PathView, j: int, child: PathView|
        #![trigger lists(next, a, i, child), lists(next, b, j, child)]
        lists(next, a, i, child) && lists(next, b, j, child) implies a == b && i == j by {
        if a == parent {
            assert(paths[i] == child);
        } else {
            let k = lemma_listed(tree, parent, nodes, a, i, child);
            assert(lists(tree, a, k, child));
        }
        if b == parent {
            assert(paths[j] == child);
        } else {
            let k = lemma_listed(tree, parent, nodes, b, j, child);
            assert(lists(tree, b, k, child));
        }
        assert(a == b);
        if a != parent {
            let keep = |child: PathView|
                !is_dropped(parent, nodes, child) && !node_paths(nodes).contains(child);
            let listed = tree.listings[a];
            assert forall|m: int, n: int|
                0 <= m < listed.len() && 0 <= n < listed.len() && m != n implies listed[m]
                != listed[n] by {
                assert(lists(tree, a, m, listed[m]) && lists(tree, a, n, listed[n]));
            }
            sequence::lemma_filter_no_duplicates(listed, keep);
            assert(next.listings[a] == listed.filter(keep));
        }
    }
}

/// Replacing the listings of directories one after the other keeps the tree valid.
proof fn lemma_with_entries_is_valid(tree: TreeView, entries: Seq<EntryView>)
    requires
        tree.valid(),
        forall|i: int| 0 <= i < entries.len() ==> (#[trigger] entries[i]).valid(),
    ensures
        tree.with_entries(entries).valid(),
    decreases entries.len(),
{
    if entries.len() > 0 {
        let front = entries.drop_last();
        let entry = entries.last();
        assert forall|i: int| 0 <= i < front.len() implies (#[trigger] front[i]).valid() by {
            assert(front[i] == entries[i]);
        }
        lemma_with_entries_is_valid(tree, front);
        assert(entries[entries.len() - 1].valid());
        let kept = immediate_children(entry.parent, entry.nodes);
        immediate_children_are_a_listing(entry.parent, entry.nodes);
        assert forall|i: int| 0 <= i < kept.len() implies (#[trigger] kept[i]).valid() by {
            let k = choose|k: int| 0 <= k < entry.nodes.len() && entry.nodes[k] == kept[i];
        }
        if tree.with_entries(front).is_directory(entry.parent) {
            with_listing_is_valid(tree.with_entries(front), entry.parent, kept);
        }
    }
}

/// Marking a directory loaded keeps the tree valid.
pub proof fn marked_is_valid(tree: TreeView, loaded: PathView)
    requires
        tree.valid(),
    ensures
        tree.marked(loaded).valid(),
{
    let next = tree.marked(loaded);
    assert(next.states.dom() =~= tree.states.dom());
    assert forall|path: PathView| #[trigger] next.states.contains_key(path) implies {
        &&& next.states[path].path() == path
        &&& path.valid()
        &&& path == next.root || path.strictly_below(next.root)
    } by {
        assert(tree.states.contains_key(path));
    }
    assert forall|dir: PathView| #[trigger] next.listings.contains_key(
        dir,
    ) implies next.is_directory(dir) by {
        assert(tree.listings.contains_key(dir));
    }
    assert forall|dir: PathView, i: int, child: PathView| #[trigger]
        lists(next, dir, i, child) implies child.strictly_below(dir) by {
        assert(lists(tree, dir, i, child));
    }
    assert forall|a: PathView, i: int, b: PathView, j: int, child: PathView|
        #![trigger lists(next, a, i, child), lists(next, b, j, child)]
        lists(next, a, i, child) && lists(next, b, j, child) implies a == b && i == j by {
        assert(lists(tree, a, i, child) && lists(tree, b, j, child));
    }
}

/// Whether `dir` lists `nodes` and the tree holds them.
pub open spec fn holds_listing(tree: TreeView, dir: PathView, nodes: Seq<NodeView>) -> bool {
    &&& tree.listings.contains_key(dir)
    &&& tree.listings[dir] == node_paths(nodes)
    &&& forall|i: int|
        0 <= i < nodes.len() ==> tree.state((#[trigger] nodes[i]).path()) == Some(nodes[i])
}

/// A directory holds the listing that it was given.
proof fn lemma_listing_is_held(tree: TreeView, parent: PathView, nodes: Seq<NodeView>)
    requires
        is_listing(parent, nodes),
    ensures
        holds_listing(tree.with_listing(parent, nodes), parent, nodes),
{
    let next = tree.with_listing(parent, nodes);
    let paths = node_paths(nodes);
    assert forall|i: int| 0 <= i < nodes.len() implies next.state((#[trigger] nodes[i]).path())
        == Some(nodes[i]) by {
        assert(paths[i] == nodes[i].path());
        let k = paths.index_of(nodes[i].path());
        assert(paths[k] == paths[i]);
    }
}

/// Replacing the listing of one directory leaves the listing of every other one that stays in the
/// tree alone.
proof fn lemma_other_listing_is_held(
    tree: TreeView,
    parent: PathView,
    nodes: Seq<NodeView>,
    dir: PathView,
    held: Seq<NodeView>,
)
    requires
        is_listing(parent, nodes),
        is_listing(dir, held),
        holds_listing(tree, dir, held),
        dir != parent,
        tree.with_listing(parent, nodes).listings.contains_key(dir),
    ensures
        holds_listing(tree.with_listing(parent, nodes), dir, held),
{
    let next = tree.with_listing(parent, nodes);
    let paths = node_paths(nodes);
    let keep = |child: PathView|
        !is_dropped(parent, nodes, child) && !node_paths(nodes).contains(child);
    assert forall|i: int| 0 <= i < held.len() implies keep((#[trigger] held[i]).path()) by {
        let child = held[i].path();
        if paths.contains(child) {
            let k = paths.index_of(child);
            assert(nodes[k].path() == child);
        }
        path::parent_is_the_nearest_above(child, dir, parent);
        if child.strictly_below(parent) {
            let k = choose|k: int|
                0 <= k < nodes.len() && (#[trigger] nodes[k]) is Directory && path::lies_in(
                    dir,
                    nodes[k].path(),
                );
            path::parent_is_the_nearest_above(child, dir, nodes[k].path());
            assert(path::lies_in(child, nodes[k].path()));
        }
    }
    let listed = node_paths(held);
    assert forall|i: int| 0 <= i < listed.len() implies keep(#[trigger] listed[i]) by {
        assert(keep(held[i].path()));
    }
    sequence::lemma_filter_keeps_all(listed, keep);
    assert(next.listings[dir] == listed);
    assert forall|i: int| 0 <= i < held.len() implies next.state((#[trigger] held[i]).path())
        == Some(held[i]) by {
        assert(keep(held[i].path()));
        assert(tree.state(held[i].path()) == Some(held[i]));
    }
}

/// A directory that has a listing after some entries holds what the last entry for it says.
proof fn lemma_last_entry_is_held(tree: TreeView, entries: Seq<EntryView>, j: int)
    requires
        only_directories_list(tree),
        is_last_entry(entries, j),
        tree.with_entries(entries).listings.contains_key(entries[j].parent),
    ensures
        holds_listing(
            tree.with_entries(entries),
            entries[j].parent,
            immediate_children(entries[j].parent, entries[j].nodes),
        ),
    decreases entries.len(),
{
    let front = entries.drop_last();
    let last = entries.last();
    let before = tree.with_entries(front);
    let dir = entries[j].parent;
    let nodes = immediate_children(last.parent, last.nodes);
    lemma_only_directories_list_after_entries(tree, front);
    immediate_children_are_a_listing(last.parent, last.nodes);
    if j == entries.len() - 1 {
        if before.is_directory(dir) {
            lemma_listing_is_held(before, dir, nodes);
        } else {
            assert(before.listings.contains_key(dir));
        }
    } else {
        assert(entries[entries.len() - 1].parent != dir);
        assert(before.listings.contains_key(dir));
        assert(front[j] == entries[j]);
        assert(is_last_entry(front, j));
        lemma_last_entry_is_held(tree, front, j);
        immediate_children_are_a_listing(dir, entries[j].nodes);
        if before.is_directory(last.parent) {
            lemma_other_listing_is_held(
                before,
                last.parent,
                nodes,
                dir,
                immediate_children(dir, entries[j].nodes),
            );
        }
    }
}

/// A node as a tree holds it once the directories of `entries` were loaded.
pub open spec fn loaded_node(tree: TreeView, entries: Seq<EntryView>, node: NodeView) -> NodeView {
    if has_entry(entries, node.path()) && tree.listings.contains_key(node.path()) {
        node.as_loaded()
    } else {
        node
    }
}

/// The last of some entries takes effect wherever the entries before it left a directory at its
/// path, also where they brought that directory into the tree.
pub proof fn last_entry_takes_effect(tree: TreeView, entries: Seq<EntryView>, entry: EntryView)
    requires
        tree.valid(),
        tree.with_entries(entries).is_directory(entry.parent),
    ensures
        holds_entry(
            tree.with_loaded_directories(entries.push(entry)),
            entries.push(entry),
            entries.len() as int,
        ),
{
    let all = entries.push(entry);
    assert(all.drop_last() =~= entries);
    assert(is_last_entry(all, entries.len() as int));
    loaded_directories_have_their_listings(tree, all, entries.len() as int);
}

/// Only directories that have an entry are marked: all else is as the listings left it.
pub proof fn only_directories_with_entries_are_marked(
    tree: TreeView,
    entries: Seq<EntryView>,
    path: PathView,
)
    requires
        forall|i: int| 0 <= i < entries.len() ==> (#[trigger] entries[i]).parent != path,
    ensures
        tree.with_loaded_directories(entries).state(path) == tree.with_entries(entries).state(path),
        tree.with_loaded_directories(entries).children(path) == tree.with_entries(
            entries,
        ).children(path),
{
    assert(!has_entry(entries, path));
}

/// Whether a tree holds what the entry at `j` says: its directory has exactly the nodes of the
/// entry as its child nodes, and it is marked loaded. A child node is as the entry describes it,
/// and itself marked loaded where the same entries load it.
pub open spec fn holds_entry(tree: TreeView, entries: Seq<EntryView>, j: int) -> bool {
    let dir = entries[j].parent;
    let nodes = immediate_children(dir, entries[j].nodes);
    &&& tree.is_directory(dir)
    &&& tree.states[dir].loaded()
    &&& tree.child_nodes(dir) == nodes.map_values(
        |node: NodeView| loaded_node(tree, entries, node),
    )
}

/// Whether the entry at `j` is the last one for its directory.
pub open spec fn is_last_entry(entries: Seq<EntryView>, j: int) -> bool {
    &&& 0 <= j < entries.len()
    &&& forall|k: int|
        j < k < entries.len() ==> (#[trigger] entries[k]).parent != entries[j].parent
}

/// A loaded directory that stays in the tree has exactly the nodes of the last entry for it as its
/// child nodes, and it is marked loaded.
pub proof fn loaded_directories_have_their_listings(
    tree: TreeView,
    entries: Seq<EntryView>,
    j: int,
)
    requires
        only_directories_list(tree),
        is_last_entry(entries, j),
        tree.with_loaded_directories(entries).listings.contains_key(entries[j].parent),
    ensures
        holds_entry(tree.with_loaded_directories(entries), entries, j),
{
    let replaced = tree.with_entries(entries);
    let next = tree.with_loaded_directories(entries);
    let dir = entries[j].parent;
    let nodes = immediate_children(dir, entries[j].nodes);
    let marked = nodes.map_values(|node: NodeView| loaded_node(next, entries, node));
    lemma_only_directories_list_after_entries(tree, entries);
    lemma_last_entry_is_held(tree, entries, j);
    assert(replaced.listings.contains_key(dir));
    assert(has_entry(entries, dir));
    let f = |child: PathView| next.state(child);
    let g = |node: NodeView| node.path();
    assert(next.children(dir) =~= marked.map_values(g)) by {
        assert forall|i: int| 0 <= i < nodes.len() implies g(#[trigger] marked[i])
            == node_paths(nodes)[i] by {}
    }
    assert forall|i: int| 0 <= i < marked.len() implies f(g(#[trigger] marked[i])) == Some(
        marked[i],
    ) by {
        assert(replaced.state(nodes[i].path()) == Some(nodes[i]));
    }
    sequence::lemma_filter_map_all(next.children(dir), f, g, marked);
}

/// A directory stays one where a listing is replaced that keeps it.
proof fn lemma_directory_stays(
    tree: TreeView,
    parent: PathView,
    nodes: Seq<NodeView>,
    dir: PathView,
)
    requires
        is_listing(parent, nodes),
        tree.is_directory(dir),
        dir.strictly_below(parent) ==> lies_in_a_directory(nodes, dir),
    ensures
        tree.with_listing(parent, nodes).is_directory(dir),
{
    let paths = node_paths(nodes);
    if paths.contains(dir) {
        let i = paths.index_of(dir);
        assert(paths[i] == dir && nodes[i].path() == dir);
        path::parent_is_the_nearest_above(dir, parent, parent);
        let k = choose|k: int|
            0 <= k < nodes.len() && (#[trigger] nodes[k]) is Directory && path::lies_in(
                dir,
                nodes[k].path(),
            );
        assert(dir.components.len() == nodes[k].path().components.len()) by {
            assert(nodes[i].path().parent() == nodes[k].path().parent());
        }
        assert(paths[k] == dir);
        assert(k == i);
    }
}

/// A directory stays in the tree, with a listing where there is an entry for it, as long as every
/// entry for a directory above lists it or a directory that it lies in.
pub proof fn kept_directories_are_loaded(tree: TreeView, entries: Seq<EntryView>, dir: PathView)
    requires
        tree.is_directory(dir),
        forall|k: int|
            0 <= k < entries.len() && dir.strictly_below((#[trigger] entries[k]).parent)
                ==> lies_in_a_directory(
                immediate_children(entries[k].parent, entries[k].nodes),
                dir,
            ),
    ensures
        tree.with_loaded_directories(entries).is_directory(dir),
        has_entry(entries, dir) ==> tree.with_loaded_directories(entries).listings.contains_key(
            dir,
        ),
    decreases entries.len(),
{
    if entries.len() > 0 {
        let front = entries.drop_last();
        let last = entries.last();
        let before = tree.with_entries(front);
        let nodes = immediate_children(last.parent, last.nodes);
        assert forall|k: int|
            0 <= k < front.len() && dir.strictly_below(
                (#[trigger] front[k]).parent,
            ) implies lies_in_a_directory(
            immediate_children(front[k].parent, front[k].nodes),
            dir,
        ) by {
            assert(front[k] == entries[k]);
        }
        kept_directories_are_loaded(tree, front, dir);
        assert(tree.with_loaded_directories(front).is_directory(dir));
        assert(before.is_directory(dir));
        immediate_children_are_a_listing(last.parent, last.nodes);
        assert(entries[entries.len() - 1] == last);
        if before.is_directory(last.parent) {
            lemma_directory_stays(before, last.parent, nodes, dir);
        }
        if has_entry(entries, dir) && last.parent != dir {
            let i = choose|i: int| 0 <= i < entries.len() && (#[trigger] entries[i]).parent == dir;
            assert(front[i].parent == dir);
        }
    }
}

/// Where an entry holds immediate children, each path once, and none of them is loaded by the same
/// entries, the child nodes are the nodes of the entry as they are.
pub proof fn child_nodes_are_the_listed_ones(tree: TreeView, entries: Seq<EntryView>, j: int)
    requires
        holds_entry(tree, entries, j),
        is_listing(entries[j].parent, entries[j].nodes),
        forall|i: int|
            0 <= i < entries[j].nodes.len() ==> !has_entry(
                entries,
                (#[trigger] entries[j].nodes[i]).path(),
            ),
    ensures
        tree.child_nodes(entries[j].parent) == entries[j].nodes,
{
    let nodes = entries[j].nodes;
    immediate_children_are_a_listing(entries[j].parent, nodes);
    assert(nodes.map_values(|node: NodeView| loaded_node(tree, entries, node)) =~= nodes);
}

/// Loading one directory of the tree leaves it with exactly the listed nodes as its child nodes,
/// and marked loaded.
pub proof fn loaded_directory_has_its_listing(tree: TreeView, entry: EntryView)
    requires
        tree.valid(),
        tree.is_directory(entry.parent),
        is_listing(entry.parent, entry.nodes),
    ensures
        tree.with_loaded_directories(seq![entry]).child_nodes(entry.parent) == entry.nodes,
        tree.with_loaded_directories(seq![entry]).state(entry.parent) == Some(
            tree.states[entry.parent].as_loaded(),
        ),
{
    let entries = seq![entry];
    let next = tree.with_loaded_directories(entries);
    assert(entries[0] == entry);
    let dir = entry.parent;
    let nodes = immediate_children(dir, entry.nodes);
    kept_directories_are_loaded(tree, entries, dir);
    assert(has_entry(entries, dir));
    loaded_directories_have_their_listings(tree, entries, 0);
    immediate_children_are_a_listing(dir, entry.nodes);
    assert(entries.drop_last() =~= Seq::empty());
    assert(tree.with_entries(entries.drop_last()) == tree);
    let paths = node_paths(nodes);
    if paths.contains(dir) {
        let i = paths.index_of(dir);
        assert(nodes[i].path().parent() == Some(dir));
    }
    assert forall|i: int| 0 <= i < entry.nodes.len() implies !has_entry(
        entries,
        (#[trigger] entry.nodes[i]).path(),
    ) by {
        path::parent_is_the_nearest_above(entry.nodes[i].path(), dir, dir);
    }
    child_nodes_are_the_listed_ones(next, entries, 0);
}

/// Loading directories changes nothing outside of them.
pub proof fn loading_leaves_other_paths_alone(
    tree: TreeView,
    entries: Seq<EntryView>,
    path: PathView,
)
    requires
        forall|k: int|
            0 <= k < entries.len() ==> !path::lies_in(path, (#[trigger] entries[k]).parent),
    ensures
        tree.with_loaded_directories(entries).root == tree.root,
        tree.with_loaded_directories(entries).state(path) == tree.state(path),
    decreases entries.len(),
{
    if entries.len() > 0 {
        let front = entries.drop_last();
        let last = entries.last();
        let nodes = immediate_children(last.parent, last.nodes);
        assert forall|k: int| 0 <= k < front.len() implies !path::lies_in(
            path,
            (#[trigger] front[k]).parent,
        ) by {
            assert(front[k] == entries[k]);
        }
        loading_leaves_other_paths_alone(tree, front, path);
        assert(!has_entry(front, path));
        assert(tree.with_loaded_directories(front).state(path) == tree.with_entries(front).state(
            path,
        ));
        assert(entries[entries.len() - 1] == last);
        immediate_children_are_a_listing(last.parent, last.nodes);
        let paths = node_paths(nodes);
        if paths.contains(path) {
            let i = paths.index_of(path);
            assert(nodes[i].path().parent() == Some(last.parent));
            path::parent_is_the_nearest_above(path, last.parent, last.parent);
        }
        assert(!has_entry(entries, path));
    }
}

/// The nodes that `parent` lists where it is told to list `nodes`.
fn listed_nodes(parent: &StandardizedPath, nodes: &Vec<RepoNodeMetadata>) -> (listed: Vec<
    FileTreeEntryState,
>)
    ensures
        state_nodes(listed@) == immediate_children(parent@, update::node_views(nodes@)),
        forall|i: int| 0 <= i < listed.len() ==> (#[trigger] state_nodes(listed@)[i]).valid(),
{
    let ghost all = update::node_views(nodes@);
    let mut listed: Vec<FileTreeEntryState> = Vec::new();
    assert(state_nodes(listed@) =~= immediate_children(parent@, all.take(0)));
    let mut i: usize = 0;
    while i < nodes.len()
        invariant
            i <= nodes.len(),
            all == update::node_views(nodes@),
            state_nodes(listed@) == immediate_children(parent@, all.take(i as int)),
            forall|k: int| 0 <= k < listed.len() ==> (#[trigger] state_nodes(listed@)[k]).valid(),
        decreases nodes.len() - i,
    {
        let node: &RepoNodeMetadata = &nodes[i];
        let path: &StandardizedPath = node.path();
        proof {
            use_type_invariant(path);
            assert(all.take(i + 1).drop_last() =~= all.take(i as int));
            assert(all.take(i + 1).last() == node@);
        }
        let is_child: bool = match path.parent() {
            Some(above) => &above == parent,
            None => false,
        };
        if is_child && !holds_node(&listed, path) {
            let ghost before = listed@;
            listed.push(node.to_state());
            assert(state_nodes(listed@) =~= state_nodes(before).push(node@));
        }
        i = i + 1;
    }
    assert(all.take(nodes.len() as int) =~= all);
    listed
}

/// Whether one of the nodes is at `path`.
fn holds_node(nodes: &Vec<FileTreeEntryState>, path: &StandardizedPath) -> (held: bool)
    ensures
        held == node_paths(state_nodes(nodes@)).contains(path@),
{
    let ghost paths = node_paths(state_nodes(nodes@));
    let mut i: usize = 0;
    while i < nodes.len()
        invariant
            i <= nodes.len(),
            paths == node_paths(state_nodes(nodes@)),
            forall|k: int| 0 <= k < i ==> #[trigger] paths[k] != path@,
        decreases nodes.len() - i,
    {
        assert(paths[i as int] == nodes@[i as int]@.path());
        if nodes[i].path() == path {
            return true;
        }
        i = i + 1;
    }
    false
}

/// Marking one more directory adds it to those that are marked.
proof fn lemma_mark_one_more(tree: TreeView, entries: Seq<EntryView>, i: int)
    requires
        0 <= i < entries.len(),
    ensures
        tree.with_loaded(entries.take(i + 1)) == tree.with_loaded(entries.take(i)).marked(
            entries[i].parent,
        ),
{
    let before = entries.take(i);
    let after = entries.take(i + 1);
    assert forall|path: PathView| has_entry(after, path) <==> has_entry(before, path) || path
        == entries[i].parent by {
        if has_entry(before, path) {
            let k = choose|k: int| 0 <= k < before.len() && (#[trigger] before[k]).parent == path;
            assert(after[k].parent == path);
        }
        if has_entry(after, path) {
            let k = choose|k: int| 0 <= k < after.len() && (#[trigger] after[k]).parent == path;
            if k < i {
                assert(before[k].parent == path);
            }
        }
        assert(after[i] == entries[i]);
    }
    assert(tree.with_loaded(after).states =~= tree.with_loaded(before).marked(
        entries[i].parent,
    ).states);
}

/// A valid tree stays valid when directories of it are loaded.
pub proof fn loading_keeps_trees_valid(tree: TreeView, entries: Seq<EntryView>)
    requires
        tree.valid(),
        forall|i: int| 0 <= i < entries.len() ==> (#[trigger] entries[i]).valid(),
    ensures
        tree.with_loaded_directories(entries).valid(),
{
    lemma_with_entries_is_valid(tree, entries);
    let replaced = tree.with_entries(entries);
    lemma_marks_keep_trees_valid(replaced, entries, entries.len() as int);
    assert(entries.take(entries.len() as int) =~= entries);
}

/// Marking the directories of the first entries loaded keeps the tree valid.
proof fn lemma_marks_keep_trees_valid(tree: TreeView, entries: Seq<EntryView>, n: int)
    requires
        tree.valid(),
        0 <= n <= entries.len(),
    ensures
        tree.with_loaded(entries.take(n)).valid(),
    decreases n,
{
    if n == 0 {
        assert(tree.with_loaded(entries.take(0)).states =~= tree.states);
    } else {
        lemma_marks_keep_trees_valid(tree, entries, n - 1);
        lemma_mark_one_more(tree, entries, n - 1);
        marked_is_valid(tree.with_loaded(entries.take(n - 1)), entries[n - 1].parent);
    }
}

impl FileTreeEntry {
    /// Takes in that directories were loaded: each directory of the tree that has an entry lists
    /// the immediate children that the entry holds, and is marked loaded. Entries take effect in
    /// order; one for a path that is no directory of the tree has none.
    pub fn load_directories(self, entries: &Vec<FileTreeEntryUpdate>) -> (tree: FileTreeEntry)
        ensures
            tree@ == self@.with_loaded_directories(update::entry_views(entries@)),
    {
        let ghost before = self@;
        let ghost all = update::entry_views(entries@);
        let mut tree: FileTreeEntry = self;
        let mut i: usize = 0;
        assert(all.take(0) =~= Seq::empty());
        while i < entries.len()
            invariant
                i <= entries.len(),
                all == update::entry_views(entries@),
                tree@ == before.with_entries(all.take(i as int)),
            decreases entries.len() - i,
        {
            let parent: &StandardizedPath = &entries[i].parent_path_to_replace;
            proof {
                assert(all.take(i + 1).drop_last() =~= all.take(i as int));
                assert(all.take(i + 1).last() == entries@[i as int]@);
            }
            if tree.is_directory(parent) {
                let listed: Vec<FileTreeEntryState> = listed_nodes(
                    parent,
                    &entries[i].subtree_metadata,
                );
                proof {
                    immediate_children_are_a_listing(
                        parent@,
                        update::node_views(entries@[i as int].subtree_metadata@),
                    );
                }
                tree = tree.replace_listing(parent, listed);
            }
            i = i + 1;
        }
        assert(all.take(entries.len() as int) =~= all);
        let ghost replaced = tree@;
        assert(replaced.with_loaded(all.take(0)) =~= replaced) by {
            assert(replaced.with_loaded(all.take(0)).states =~= replaced.states);
        }
        let mut i: usize = 0;
        while i < entries.len()
            invariant
                i <= entries.len(),
                all == update::entry_views(entries@),
                tree@ == replaced.with_loaded(all.take(i as int)),
            decreases entries.len() - i,
        {
            proof {
                lemma_mark_one_more(replaced, all, i as int);
                assert(all[i as int] == entries@[i as int]@);
            }
            tree = tree.mark_loaded(&entries[i].parent_path_to_replace);
            i = i + 1;
        }
        tree
    }
}

} // verus!
