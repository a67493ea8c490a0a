//! The file tree that has been read of a repository so far.

use std::collections::VecDeque;

use vstd::prelude::*;

use crate::listing;
use crate::node::{DirectoryNodeMetadata, FileTreeEntryState, NodeView, RepoContent};
use crate::node;
use crate::path::{PathView, StandardizedPath};
use crate::path;
use crate::sequence;
use crate::table::Table;
use crate::table;

verus! {

/// What a [`FileTreeEntry`] stands for.
#[verifier::ext_equal]
pub struct TreeView {
    pub root: PathView,
    /// Every node of the tree, by its path.
    pub states: Map<PathView, NodeView>,
    /// The child paths of the directories whose listing is known, in listing order.
    pub listings: Map<PathView, Seq<PathView>>,
}

/// Whether `child` is the entry at position `i` of the listing of `parent`.
pub open spec fn lists(tree: TreeView, parent: PathView, i: int, child: PathView) -> bool {
    &&& tree.listings.contains_key(parent)
    &&& 0 <= i < tree.listings[parent].len()
    &&& tree.listings[parent][i] == child
}

impl TreeView {
    /// What holds of every tree: the root is one of its directories, and every other node lies
    /// below it. Only directories list anything, and a path is listed at most once, by a directory
    /// that it lies below. A listed path need not be a node of the tree: nothing may be known of
    /// it yet.
    pub open spec fn valid(self) -> bool {
        &&& self.is_directory(self.root)
        &&& self.states.dom().finite()
        &&& forall|path: PathView| #[trigger]
            self.states.contains_key(path) ==> {
                &&& self.states[path].path() == path
                &&& path.valid()
                &&& path == self.root || path.strictly_below(self.root)
            }
        &&& forall|parent: PathView| #[trigger]
            self.listings.contains_key(parent) ==> self.is_directory(parent)
        &&& forall|parent: PathView, i: int, child: PathView| #[trigger]
            lists(self, parent, i, child) ==> child.strictly_below(parent)
        &&& forall|a: PathView, i: int, b: PathView, j: int, child: PathView|
            #![trigger lists(self, a, i, child), lists(self, b, j, child)]
            lists(self, a, i, child) && lists(self, b, j, child) ==> a == b && i == j
    }

    pub open spec fn state(self, path: PathView) -> Option<NodeView> {
        if self.states.contains_key(path) {
            Some(self.states[path])
        } else {
            None
        }
    }

    pub open spec fn is_directory(self, path: PathView) -> bool {
        self.states.contains_key(path) && self.states[path] is Directory
    }

    /// The paths listed below `path`.
    pub open spec fn children(self, path: PathView) -> Seq<PathView> {
        if self.listings.contains_key(path) {
            self.listings[path]
        } else {
            Seq::empty()
        }
    }

    /// The nodes listed below `path`.
    pub open spec fn child_nodes(self, path: PathView) -> Seq<NodeView> {
        self.children(path).filter_map(|child: PathView| self.state(child))
    }

    /// The directories listed below `path`.
    pub open spec fn child_directories(self, path: PathView) -> Seq<PathView> {
        self.children(path).filter(|child: PathView| self.is_directory(child))
    }

    /// Whether some directory lists `path`.
    pub open spec fn is_listed(self, path: PathView) -> bool {
        exists|parent: PathView, i: int| lists(self, parent, i, path)
    }

    /// Whether `path` can become the last path that `parent` lists.
    pub open spec fn accepts_path(self, parent: PathView, path: PathView) -> bool {
        &&& self.is_directory(parent)
        &&& path.strictly_below(parent)
        &&& !self.is_listed(path)
    }

    /// Whether `node` can become a child of `parent`: `parent` is a directory of the tree, `node`
    /// is a new node below it, and no other directory lists its path.
    pub open spec fn accepts(self, parent: PathView, node: NodeView) -> bool {
        &&& self.is_directory(parent)
        &&& !self.states.contains_key(node.path())
        &&& node.path().strictly_below(parent)
        &&& !self.is_listed(node.path()) || self.children(parent).contains(node.path())
    }

    /// The tree in which `parent` lists `path`, behind what it listed before.
    pub open spec fn with_path(self, parent: PathView, path: PathView) -> TreeView {
        if self.children(parent).contains(path) {
            self
        } else {
            TreeView {
                listings: self.listings.insert(parent, self.children(parent).push(path)),
                ..self
            }
        }
    }

    /// The tree with `node` as a child of `parent`: where the path is listed already, or else as
    /// the last one.
    pub open spec fn with_child(self, parent: PathView, node: NodeView) -> TreeView {
        TreeView {
            states: self.states.insert(node.path(), node),
            ..self.with_path(parent, node.path())
        }
    }

    /// Whether `order` holds the directories of the tree level by level: the root first, then the
    /// child directories of each entry, in the order of the entries.
    pub open spec fn is_breadth_first(self, order: Seq<PathView>) -> bool {
        order == seq![self.root] + order.flat_map(|path: PathView| self.child_directories(path))
    }

    /// The directories of the tree, level by level.
    pub open spec fn directories(self) -> Seq<PathView> {
        choose|order: Seq<PathView>| self.is_breadth_first(order)
    }

    /// Whether `chain` starts at a directory and goes on from each entry to one of its child
    /// directories.
    pub open spec fn is_descent(self, chain: Seq<PathView>) -> bool {
        &&& chain.len() > 0
        &&& self.is_directory(chain[0])
        &&& forall|i: int, j: int|
            0 <= i && j == i + 1 && j < chain.len() ==> self.child_directories(
                #[trigger] chain[i],
            ).contains(#[trigger] chain[j])
    }

    /// Whether a descent leads from the directory `from` to the directory `to`.
    pub open spec fn reaches(self, from: PathView, to: PathView) -> bool {
        exists|chain: Seq<PathView>| #[trigger]
            self.is_descent(chain) && chain[0] == from && chain.last() == to
    }

    /// Whether every directory that can be reached from `path` has been read.
    pub open spec fn fully_loaded_from(self, path: PathView) -> bool {
        forall|directory: PathView| #[trigger]
            self.reaches(path, directory) ==> self.states[directory].loaded()
    }

    /// The nodes of the tree, level by level: the root, then the nodes listed below each
    /// directory.
    pub open spec fn nodes(self) -> Seq<NodeView> {
        seq![self.states[self.root]] + self.directories().flat_map(
            |path: PathView| self.child_nodes(path),
        )
    }
}

/// The directories that `order` brings up next to the root.
pub open spec fn expansion(tree: TreeView, order: Seq<PathView>) -> Seq<PathView> {
    seq![tree.root] + order.flat_map(|path: PathView| tree.child_directories(path))
}

/// A child directory is listed by its parent.
proof fn lemma_child_directory(tree: TreeView, parent: PathView, k: int) -> (i: int)
    requires
        0 <= k < tree.child_directories(parent).len(),
    ensures
        lists(tree, parent, i, tree.child_directories(parent)[k]),
        tree.is_directory(tree.child_directories(parent)[k]),
{
    let keep = |child: PathView| tree.is_directory(child);
    let children = tree.children(parent);
    let child = tree.child_directories(parent)[k];
    children.lemma_filter_pred(keep, k);
    assert(children.filter(keep).contains(child));
    children.lemma_filter_contains_rev(keep, child);
    let i = choose|i: int| 0 <= i < children.len() && children[i] == child;
    i
}

/// Expanding the first entries of a breadth-first order gives the entries it starts with.
proof fn lemma_expansion_is_prefix(tree: TreeView, order: Seq<PathView>, n: int)
    requires
        tree.is_breadth_first(order),
        0 <= n <= order.len(),
    ensures
        expansion(tree, order.take(n)).is_prefix_of(order),
{
    let f = |path: PathView| tree.child_directories(path);
    assert(order =~= order.take(n) + order.skip(n));
    sequence::lemma_flat_map_concat(order.take(n), order.skip(n), f);
    assert(order =~= expansion(tree, order.take(n)) + order.skip(n).flat_map(f));
}

/// As long as entries are left, expanding the ones before them brings up one of them: an entry
/// cannot descend from later entries alone.
proof fn lemma_expansion_progresses(tree: TreeView, order: Seq<PathView>, n: int, k: int)
    requires
        tree.valid(),
        tree.is_breadth_first(order),
        0 <= n <= k < order.len(),
    ensures
        expansion(tree, order.take(n)).len() > n,
    decreases order[k].components.len(),
{
    let f = |path: PathView| tree.child_directories(path);
    let early = expansion(tree, order.take(n));
    let late = order.skip(n);
    if early.len() <= n {
        assert(order =~= order.take(n) + late);
        sequence::lemma_flat_map_concat(order.take(n), late, f);
        assert(order =~= early + late.flat_map(f));
        let source = sequence::lemma_flat_map_source(late, f, k - early.len());
        let parent = late[source.0];
        let i = lemma_child_directory(tree, parent, source.1);
        assert(lists(tree, parent, i, order[k]));
        assert(order[n + source.0] == parent);
        lemma_expansion_progresses(tree, order, n, n + source.0);
    }
}

/// A directory of a breadth-first order, but for the root, is listed by an earlier one.
pub proof fn lemma_parent_comes_first(tree: TreeView, order: Seq<PathView>, k: int) -> (source: (
    int,
    int,
))
    requires
        tree.valid(),
        tree.is_breadth_first(order),
        0 < k < order.len(),
    ensures
        0 <= source.0 < k,
        lists(tree, order[source.0], source.1, order[k]),
        tree.is_directory(order[k]),
{
    let f = |path: PathView| tree.child_directories(path);
    lemma_expansion_progresses(tree, order, k, k);
    lemma_expansion_is_prefix(tree, order, k);
    let early = expansion(tree, order.take(k));
    assert(order[k] == early[k]);
    let found = sequence::lemma_flat_map_source(order.take(k), f, k - 1);
    let i = lemma_child_directory(tree, order.take(k)[found.0], found.1);
    (found.0, i)
}

/// There is at most one breadth-first order of a tree.
pub proof fn breadth_first_order_is_unique(tree: TreeView, a: Seq<PathView>, b: Seq<PathView>)
    requires
        tree.valid(),
        tree.is_breadth_first(a),
        tree.is_breadth_first(b),
    ensures
        a == b,
{
    lemma_common_prefix(tree, a, b, a.len() as int);
    lemma_common_prefix(tree, b, a, b.len() as int);
    assert(a.take(a.len() as int) =~= a);
    assert(b.take(b.len() as int) =~= b);
}

proof fn lemma_common_prefix(tree: TreeView, a: Seq<PathView>, b: Seq<PathView>, n: int)
    requires
        tree.valid(),
        tree.is_breadth_first(a),
        tree.is_breadth_first(b),
        0 <= n <= a.len(),
    ensures
        n <= b.len(),
        a.take(n) == b.take(n),
    decreases n,
{
    if n > 0 {
        lemma_common_prefix(tree, a, b, n - 1);
        lemma_expansion_is_prefix(tree, a, n - 1);
        lemma_expansion_is_prefix(tree, b, n - 1);
        let early = expansion(tree, a.take(n - 1));
        lemma_expansion_progresses(tree, a, n - 1, n - 1);
        assert(a[n - 1] == early[n - 1]);
        assert(b[n - 1] == early[n - 1]);
        assert(a.take(n) =~= a.take(n - 1).push(a[n - 1]));
        assert(b.take(n) =~= b.take(n - 1).push(b[n - 1]));
    }
}

/// What a walk that has visited `visited` and has `waiting` still to visit keeps: both together
/// are the expansion of what was visited, and every directory comes up once.
pub open spec fn walks(tree: TreeView, visited: Seq<PathView>, waiting: Seq<PathView>) -> bool {
    &&& visited + waiting == expansion(tree, visited)
    &&& (visited + waiting).no_duplicates()
    &&& forall|i: int|
        0 <= i < (visited + waiting).len() ==> tree.is_directory(
            #[trigger] (visited + waiting)[i],
        )
}

proof fn lemma_walk_starts(tree: TreeView)
    requires
        tree.valid(),
    ensures
        walks(tree, Seq::empty(), seq![tree.root]),
{
    let f = |path: PathView| tree.child_directories(path);
    sequence::lemma_flat_map_empty(f);
    assert(Seq::empty() + seq![tree.root] =~= expansion(tree, Seq::empty()));
}

/// Visiting the first waiting directory makes its child directories wait.
proof fn lemma_walk_steps(tree: TreeView, visited: Seq<PathView>, waiting: Seq<PathView>)
    requires
        tree.valid(),
        walks(tree, visited, waiting),
        waiting.len() > 0,
    ensures
        walks(
            tree,
            visited.push(waiting[0]),
            waiting.drop_first() + tree.child_directories(waiting[0]),
        ),
        visited.len() < tree.states.dom().len(),
{
    let f = |path: PathView| tree.child_directories(path);
    let current = waiting[0];
    let known = visited + waiting;
    let added = tree.child_directories(current);
    let all = visited.push(current) + (waiting.drop_first() + added);
    assert(known[visited.len() as int] == current);
    assert(all =~= known + added);
    sequence::lemma_flat_map_push(visited, current, f);
    assert(all =~= expansion(tree, visited.push(current)));
    assert forall|i: int| 0 <= i < all.len() implies tree.is_directory(#[trigger] all[i]) by {
        if i < known.len() {
            assert(all[i] == known[i]);
        } else {
            let _ = lemma_child_directory(tree, current, i - known.len());
        }
    }
    assert(added.no_duplicates()) by {
        let children = tree.children(current);
        assert forall|i: int, j: int|
            0 <= i < children.len() && 0 <= j < children.len() && i != j implies children[i]
            != children[j] by {
            assert(lists(tree, current, i, children[i]));
            assert(lists(tree, current, j, children[j]));
        }
        sequence::lemma_filter_no_duplicates(children, |child: PathView| tree.is_directory(child));
    }
    assert forall|x: int, y: int| 0 <= x < known.len() && 0 <= y < added.len() implies known[x]
        != added[y] by {
        let i = lemma_child_directory(tree, current, y);
        if x > 0 && known[x] == added[y] {
            let source = sequence::lemma_flat_map_source(visited, f, x - 1);
            let j = lemma_child_directory(tree, visited[source.0], source.1);
            assert(lists(tree, visited[source.0], j, added[y]));
            assert(lists(tree, current, i, added[y]));
            assert(known[source.0] == known[visited.len() as int]);
        }
    }
    assert(all.no_duplicates());
    assert forall|i: int| 0 <= i < known.len() implies tree.states.dom().contains(
        #[trigger] known[i],
    ) by {
        assert(tree.is_directory(known[i]));
    }
    sequence::lemma_distinct_len(known, tree.states.dom());
}

/// A walk with nothing left to visit has visited the directories level by level.
proof fn lemma_walk_ends(tree: TreeView, visited: Seq<PathView>)
    requires
        tree.valid(),
        walks(tree, visited, Seq::empty()),
    ensures
        tree.is_breadth_first(visited),
        visited == tree.directories(),
        visited.no_duplicates(),
{
    assert(visited + Seq::empty() =~= visited);
    assert(tree.is_breadth_first(visited));
    breadth_first_order_is_unique(tree, visited, tree.directories());
}

/// A walk can always be brought to its end.
proof fn lemma_walk_finishes(tree: TreeView, visited: Seq<PathView>, waiting: Seq<PathView>)
    requires
        tree.valid(),
        walks(tree, visited, waiting),
    ensures
        tree.is_breadth_first(tree.directories()),
        tree.directories().no_duplicates(),
    decreases tree.states.dom().len() - visited.len(),
{
    if waiting.len() == 0 {
        assert(waiting =~= Seq::empty());
        lemma_walk_ends(tree, visited);
    } else {
        lemma_walk_steps(tree, visited, waiting);
        lemma_walk_finishes(
            tree,
            visited.push(waiting[0]),
            waiting.drop_first() + tree.child_directories(waiting[0]),
        );
    }
}

/// Every tree has a breadth-first order, and it holds no directory twice.
pub proof fn breadth_first_order_exists(tree: TreeView)
    requires
        tree.valid(),
    ensures
        tree.is_breadth_first(tree.directories()),
        tree.directories().no_duplicates(),
{
    lemma_walk_starts(tree);
    lemma_walk_finishes(tree, Seq::empty(), seq![tree.root]);
}

/// The directories of a tree are exactly those that can be reached from its root.
pub proof fn directories_are_the_reachable_ones(tree: TreeView, path: PathView)
    requires
        tree.valid(),
    ensures
        tree.directories().contains(path) <==> tree.reaches(tree.root, path),
{
    breadth_first_order_exists(tree);
    let order = tree.directories();
    if order.contains(path) {
        let k = choose|k: int| 0 <= k < order.len() && order[k] == path;
        lemma_directory_is_reachable(tree, k);
    }
    if tree.reaches(tree.root, path) {
        let chain = choose|chain: Seq<PathView>| #[trigger]
            tree.is_descent(chain) && chain[0] == tree.root && chain.last() == path;
        lemma_reachable_is_directory(tree, chain, chain.len() - 1);
    }
}

/// A descent ends in a directory of the tree.
pub proof fn lemma_descent_ends_in_directory(tree: TreeView, chain: Seq<PathView>)
    requires
        tree.is_descent(chain),
    ensures
        tree.is_directory(chain.last()),
{
    if chain.len() > 1 {
        let parent = chain[chain.len() - 2];
        let below = tree.child_directories(parent);
        assert(below.contains(chain[chain.len() - 1]));
        let k = choose|k: int| 0 <= k < below.len() && below[k] == chain.last();
        let _ = lemma_child_directory(tree, parent, k);
    }
}

proof fn lemma_directory_is_reachable(tree: TreeView, k: int)
    requires
        tree.valid(),
        tree.is_breadth_first(tree.directories()),
        0 <= k < tree.directories().len(),
    ensures
        tree.reaches(tree.root, tree.directories()[k]),
    decreases tree.directories()[k].components.len(),
{
    let f = |path: PathView| tree.child_directories(path);
    let order = tree.directories();
    if k == 0 {
        let chain = seq![tree.root];
        assert(tree.is_descent(chain) && chain[0] == tree.root && chain.last() == order[0]);
    } else {
        let source = sequence::lemma_flat_map_source(order, f, k - 1);
        let parent = order[source.0];
        let i = lemma_child_directory(tree, parent, source.1);
        assert(lists(tree, parent, i, order[k]));
        lemma_directory_is_reachable(tree, source.0);
        let front = choose|chain: Seq<PathView>| #[trigger]
            tree.is_descent(chain) && chain[0] == tree.root && chain.last() == parent;
        let chain = front.push(order[k]);
        assert forall|a: int, b: int| 0 <= a && b == a + 1 && b < chain.len() implies tree.child_directories(
            #[trigger] chain[a],
        ).contains(#[trigger] chain[b]) by {
            if b < front.len() {
                assert(front[a] == chain[a] && front[b] == chain[b]);
            } else {
                assert(tree.child_directories(parent)[source.1] == order[k]);
            }
        }
        assert(tree.is_descent(chain) && chain[0] == tree.root && chain.last() == order[k]);
    }
}

proof fn lemma_reachable_is_directory(tree: TreeView, chain: Seq<PathView>, k: int)
    requires
        tree.valid(),
        tree.is_breadth_first(tree.directories()),
        tree.is_descent(chain),
        chain[0] == tree.root,
        0 <= k < chain.len(),
    ensures
        tree.directories().contains(chain[k]),
    decreases k,
{
    let f = |path: PathView| tree.child_directories(path);
    let order = tree.directories();
    if k == 0 {
        assert(order[0] == tree.root);
    } else {
        lemma_reachable_is_directory(tree, chain, k - 1);
        let i = choose|i: int| 0 <= i < order.len() && order[i] == chain[k - 1];
        let below = tree.child_directories(chain[k - 1]);
        assert(below.contains(chain[k]));
        let j = choose|j: int| 0 <= j < below.len() && below[j] == chain[k];
        sequence::lemma_flat_map_contains(order, f, i, j);
        let m = choose|m: int| 0 <= m < order.flat_map(f).len() && order.flat_map(f)[m] == chain[k];
        assert(order[m + 1] == chain[k]);
    }
}

/// A directory is fully loaded if it has been read and what it lists is fully loaded.
proof fn lemma_fully_loaded(tree: TreeView, path: PathView)
    requires
        tree.valid(),
    ensures
        !tree.is_directory(path) ==> tree.fully_loaded_from(path),
        tree.is_directory(path) ==> (tree.fully_loaded_from(path) <==> {
            &&& tree.states[path].loaded()
            &&& forall|k: int|
                0 <= k < tree.children(path).len() ==> tree.fully_loaded_from(
                    #[trigger] tree.children(path)[k],
                )
        }),
{
    let keep = |child: PathView| tree.is_directory(child);
    let children = tree.children(path);
    if tree.is_directory(path) && tree.fully_loaded_from(path) {
        let alone = seq![path];
        assert(tree.is_descent(alone) && alone[0] == path && alone.last() == path);
        assert(tree.reaches(path, path));
        assert forall|k: int| 0 <= k < children.len() implies tree.fully_loaded_from(
            #[trigger] children[k],
        ) by {
            assert forall|directory: PathView| #[trigger]
                tree.reaches(children[k], directory) implies tree.states[directory].loaded() by {
                let rest = choose|chain: Seq<PathView>| #[trigger]
                    tree.is_descent(chain) && chain[0] == children[k] && chain.last() == directory;
                children.lemma_filter_contains(keep, k);
                let chain = seq![path] + rest;
                assert forall|a: int, b: int| 0 <= a && b == a + 1 && b < chain.len() implies tree.child_directories(
                    #[trigger] chain[a],
                ).contains(#[trigger] chain[b]) by {
                    if a > 0 {
                        assert(rest[a - 1] == chain[a] && rest[b - 1] == chain[b]);
                    }
                }
                assert(tree.is_descent(chain) && chain[0] == path && chain.last() == directory);
                assert(tree.reaches(path, directory));
            }
        }
    }
    if tree.is_directory(path) && tree.states[path].loaded() && (forall|k: int|
        0 <= k < children.len() ==> tree.fully_loaded_from(#[trigger] children[k])) {
        assert forall|directory: PathView| #[trigger]
            tree.reaches(path, directory) implies tree.states[directory].loaded() by {
            let chain = choose|chain: Seq<PathView>| #[trigger]
                tree.is_descent(chain) && chain[0] == path && chain.last() == directory;
            if chain.len() > 1 {
                let rest = chain.drop_first();
                assert(tree.child_directories(chain[0]).contains(chain[1]));
                children.lemma_filter_contains_rev(keep, chain[1]);
                let k = choose|k: int| 0 <= k < children.len() && children[k] == chain[1];
                let below = tree.child_directories(path);
                let j = choose|j: int| 0 <= j < below.len() && below[j] == chain[1];
                let _ = lemma_child_directory(tree, path, j);
                assert forall|a: int, b: int| 0 <= a && b == a + 1 && b < rest.len() implies tree.child_directories(
                    #[trigger] rest[a],
                ).contains(#[trigger] rest[b]) by {
                    assert(chain[a + 1] == rest[a] && chain[b + 1] == rest[b]);
                }
                assert(tree.is_descent(rest) && rest[0] == children[k] && rest.last()
                    == directory);
                assert(tree.reaches(children[k], directory));
            }
        }
    }
}

/// The paths of the tree that lie below `path`.
pub open spec fn paths_below(tree: TreeView, path: PathView) -> Set<PathView> {
    tree.states.dom().filter(|other: PathView| other.strictly_below(path))
}

/// No more nodes lie below a child than below the path that lists it, and fewer where the child
/// is a node itself.
proof fn lemma_fewer_below(tree: TreeView, path: PathView, k: int)
    requires
        tree.valid(),
        0 <= k < tree.children(path).len(),
    ensures
        paths_below(tree, tree.children(path)[k]).len() <= paths_below(tree, path).len(),
        tree.states.contains_key(tree.children(path)[k]) ==> paths_below(
            tree,
            tree.children(path)[k],
        ).len() < paths_below(tree, path).len(),
{
    let child = tree.children(path)[k];
    assert(lists(tree, path, k, child));
    let outer = paths_below(tree, path);
    let inner = paths_below(tree, child);
    assert forall|other: PathView| inner.contains(other) implies outer.contains(other) by {
        assert(other.components.take(path.components.len() as int) =~= other.components.take(
            child.components.len() as int,
        ).take(path.components.len() as int));
    }
    assert(inner.subset_of(outer));
    vstd::set_lib::lemma_len_subset(inner, outer);
    if tree.states.contains_key(child) {
        assert(outer.contains(child));
        assert(!inner.contains(child));
        assert(inner.subset_of(outer.remove(child)));
        vstd::set_lib::lemma_len_subset(inner, outer.remove(child));
    }
}

/// What a tree knows of a path is what it holds there: a node or none, a directory or not, and the
/// paths that are listed below it.
pub proof fn trees_know_what_they_hold(tree: TreeView, path: PathView)
    ensures
        tree.state(path) is Some <==> tree.states.contains_key(path),
        tree.states.contains_key(path) ==> tree.state(path) == Some(tree.states[path]),
        tree.is_directory(path) <==> (tree.state(path) matches Some(NodeView::Directory { .. })),
        tree.listings.contains_key(path) ==> tree.children(path) == tree.listings[path],
        !tree.listings.contains_key(path) ==> tree.children(path).len() == 0,
{
}

/// The child nodes of a directory are the nodes that the tree holds at the paths listed there, all
/// of them and no others; where the tree holds a node at every one, they stand in the order of the
/// listing. The child directories are the directories among them.
pub proof fn child_nodes_are_the_known_children(tree: TreeView, parent: PathView)
    ensures
        forall|node: NodeView| #[trigger]
            tree.child_nodes(parent).contains(node) <==> exists|i: int|
                0 <= i < tree.children(parent).len() && tree.state(
                    #[trigger] tree.children(parent)[i],
                ) == Some(node),
        forall|child: PathView| #[trigger]
            tree.child_directories(parent).contains(child) <==> tree.children(parent).contains(
                child,
            ) && tree.states.contains_key(child) && tree.states[child] is Directory,
        (forall|i: int|
            0 <= i < tree.children(parent).len() ==> tree.states.contains_key(
                #[trigger] tree.children(parent)[i],
            )) ==> {
            &&& tree.child_nodes(parent).len() == tree.children(parent).len()
            &&& forall|i: int|
                0 <= i < tree.children(parent).len() ==> #[trigger] tree.child_nodes(parent)[i]
                    == tree.states[tree.children(parent)[i]]
        },
{
    let children = tree.children(parent);
    let f = |child: PathView| tree.state(child);
    let keep = |child: PathView| tree.is_directory(child);
    let nodes = tree.child_nodes(parent);
    assert forall|node: NodeView| #[trigger] nodes.contains(node) <==> exists|i: int|
        0 <= i < children.len() && tree.state(#[trigger] children[i]) == Some(node) by {
        if nodes.contains(node) {
            let k = choose|k: int| 0 <= k < nodes.len() && nodes[k] == node;
            let i = sequence::lemma_filter_map_source(children, f, k);
            assert(tree.state(children[i]) == Some(node));
        }
        if exists|i: int|
            0 <= i < children.len() && tree.state(#[trigger] children[i]) == Some(node) {
            let i = choose|i: int|
                0 <= i < children.len() && tree.state(#[trigger] children[i]) == Some(node);
            sequence::lemma_filter_map_keeps(children, f, i);
        }
    }
    assert forall|child: PathView| #[trigger] tree.child_directories(parent).contains(
        child,
    ) <==> children.contains(child) && tree.states.contains_key(child)
        && tree.states[child] is Directory by {
        let kept = children.filter(keep);
        if kept.contains(child) {
            let k = choose|k: int| 0 <= k < kept.len() && kept[k] == child;
            children.lemma_filter_pred(keep, k);
            children.lemma_filter_contains_rev(keep, child);
        }
        if children.contains(child) && tree.is_directory(child) {
            let i = choose|i: int| 0 <= i < children.len() && children[i] == child;
            children.lemma_filter_contains(keep, i);
        }
    }
    if forall|i: int| 0 <= i < children.len() ==> tree.states.contains_key(#[trigger] children[i]) {
        lemma_all_children_known(tree, children);
    }
}

proof fn lemma_all_children_known(tree: TreeView, children: Seq<PathView>)
    requires
        forall|i: int| 0 <= i < children.len() ==> tree.states.contains_key(#[trigger] children[i]),
    ensures
        children.filter_map(|child: PathView| tree.state(child)) == children.map_values(
            |child: PathView| tree.states[child],
        ),
    decreases children.len(),
{
    let f = |child: PathView| tree.state(child);
    let g = |child: PathView| tree.states[child];
    if children.len() > 0 {
        let front = children.drop_last();
        assert forall|i: int| 0 <= i < front.len() implies tree.states.contains_key(
            #[trigger] front[i],
        ) by {
            assert(front[i] == children[i]);
        }
        lemma_all_children_known(tree, front);
        assert(children =~= front.push(children.last()));
        sequence::lemma_filter_map_push(front, children.last(), f);
        assert(children[children.len() - 1] == children.last());
        assert(children.map_values(g) =~= front.map_values(g).push(g(children.last())));
    } else {
        assert(children.filter_map(f) =~= children.map_values(g));
    }
}

/// A directory is reached from itself, and whatever directory a reached directory lists is reached;
/// only directories are.
pub proof fn listed_directories_are_reached(
    tree: TreeView,
    from: PathView,
    via: PathView,
    to: PathView,
)
    ensures
        tree.is_directory(from) ==> tree.reaches(from, from),
        tree.reaches(from, via) && tree.children(via).contains(to) && tree.is_directory(to)
            ==> tree.reaches(from, to),
        tree.reaches(from, to) ==> tree.is_directory(to) && tree.is_directory(from),
{
    if tree.is_directory(from) {
        let alone = seq![from];
        assert(tree.is_descent(alone) && alone[0] == from && alone.last() == from);
    }
    if tree.reaches(from, to) {
        let chain = choose|chain: Seq<PathView>| #[trigger]
            tree.is_descent(chain) && chain[0] == from && chain.last() == to;
        lemma_descent_ends_in_directory(tree, chain);
    }
    if tree.reaches(from, via) && tree.children(via).contains(to) && tree.is_directory(to) {
        let chain = choose|chain: Seq<PathView>| #[trigger]
            tree.is_descent(chain) && chain[0] == from && chain.last() == via;
        child_nodes_are_the_known_children(tree, via);
        let longer = chain.push(to);
        assert forall|i: int, j: int|
            0 <= i && j == i + 1 && j < longer.len() implies tree.child_directories(
            #[trigger] longer[i],
        ).contains(#[trigger] longer[j]) by {
            if j < chain.len() {
                assert(chain[i] == longer[i] && chain[j] == longer[j]);
            } else {
                assert(longer[i] == via);
            }
        }
        assert(tree.is_descent(longer) && longer[0] == from && longer.last() == to);
    }
}

/// Nothing is reached but what listings lead to: a set that holds a directory, and with every
/// directory the directories that it lists, holds all that is reached from there.
pub proof fn nothing_else_is_reached(
    tree: TreeView,
    from: PathView,
    to: PathView,
    set: Set<PathView>,
)
    requires
        set.contains(from),
        forall|parent: PathView, i: int|
            #![trigger tree.children(parent)[i]]
            set.contains(parent) && 0 <= i < tree.children(parent).len() && tree.is_directory(
                tree.children(parent)[i],
            ) ==> set.contains(tree.children(parent)[i]),
        tree.reaches(from, to),
    ensures
        set.contains(to),
{
    let chain = choose|chain: Seq<PathView>| #[trigger]
        tree.is_descent(chain) && chain[0] == from && chain.last() == to;
    lemma_descent_stays_in(tree, chain, set, chain.len() - 1);
}

proof fn lemma_descent_stays_in(
    tree: TreeView,
    chain: Seq<PathView>,
    set: Set<PathView>,
    n: int,
)
    requires
        tree.is_descent(chain),
        set.contains(chain[0]),
        forall|parent: PathView, i: int|
            #![trigger tree.children(parent)[i]]
            set.contains(parent) && 0 <= i < tree.children(parent).len() && tree.is_directory(
                tree.children(parent)[i],
            ) ==> set.contains(tree.children(parent)[i]),
        0 <= n < chain.len(),
    ensures
        set.contains(chain[n]),
    decreases n,
{
    if n > 0 {
        lemma_descent_stays_in(tree, chain, set, n - 1);
        assert(tree.child_directories(chain[n - 1]).contains(chain[n]));
        child_nodes_are_the_known_children(tree, chain[n - 1]);
        let children = tree.children(chain[n - 1]);
        let i = choose|i: int| 0 <= i < children.len() && children[i] == chain[n];
        assert(tree.children(chain[n - 1])[i] == chain[n]);
    }
}

/// A tree is fully loaded from a path on exactly if what is known of each directory that is reached
/// from there says that it has been read, whether or not it is ignored.
pub proof fn fully_loaded_trees_have_every_directory_read(tree: TreeView, path: PathView)
    ensures
        tree.fully_loaded_from(path) <==> forall|directory: PathView| #[trigger]
            tree.reaches(path, directory) ==> (tree.states[directory] matches NodeView::Directory {
                loaded,
                ..
            } && loaded),
{
    assert forall|directory: PathView| #[trigger]
        tree.reaches(path, directory) implies tree.states[directory] is Directory by {
        listed_directories_are_reached(tree, path, path, directory);
    }
}

/// One directory that has not been read is enough for a tree not to be fully loaded, wherever
/// listings lead to it from; more directories that have been read make no difference.
pub proof fn one_unread_directory_is_enough(
    tree: TreeView,
    from: PathView,
    directory: PathView,
    ignored: bool,
)
    requires
        tree.reaches(from, directory),
        tree.states[directory] == (NodeView::Directory { path: directory, ignored, loaded: false }),
    ensures
        !tree.fully_loaded_from(from),
{
    fully_loaded_trees_have_every_directory_read(tree, from);
}

/// The nodes of a tree are its root and what the directories that are reached from the root list,
/// all of it and nothing else; the root is the first.
pub proof fn nodes_are_what_reached_directories_list(tree: TreeView, node: NodeView)
    requires
        tree.valid(),
    ensures
        tree.nodes().len() > 0,
        tree.nodes()[0] == tree.states[tree.root],
        tree.nodes().contains(node) <==> node == tree.states[tree.root] || exists|
            directory: PathView,
            i: int,
        |
            #![trigger tree.children(directory)[i]]
            tree.reaches(tree.root, directory) && 0 <= i < tree.children(directory).len()
                && tree.state(tree.children(directory)[i]) == Some(node),
{
    let order = tree.directories();
    let f = |path: PathView| tree.child_nodes(path);
    let nodes = tree.nodes();
    if nodes.contains(node) && node != tree.states[tree.root] {
        let k = choose|k: int| 0 <= k < nodes.len() && nodes[k] == node;
        let source = sequence::lemma_flat_map_source(order, f, k - 1);
        let directory = order[source.0];
        directories_are_the_reachable_ones(tree, directory);
        child_nodes_are_the_known_children(tree, directory);
        assert(tree.child_nodes(directory)[source.1] == node);
        assert(tree.child_nodes(directory).contains(node));
        let i = choose|i: int|
            0 <= i < tree.children(directory).len() && tree.state(
                #[trigger] tree.children(directory)[i],
            ) == Some(node);
        assert(tree.state(tree.children(directory)[i]) == Some(node));
    }
    if exists|directory: PathView, i: int|
        #![trigger tree.children(directory)[i]]
        tree.reaches(tree.root, directory) && 0 <= i < tree.children(directory).len() && tree.state(
            tree.children(directory)[i],
        ) == Some(node) {
        let (directory, i) = choose|directory: PathView, i: int|
            #![trigger tree.children(directory)[i]]
            tree.reaches(tree.root, directory) && 0 <= i < tree.children(directory).len()
                && tree.state(tree.children(directory)[i]) == Some(node);
        directories_are_the_reachable_ones(tree, directory);
        child_nodes_are_the_known_children(tree, directory);
        let k = choose|k: int| 0 <= k < order.len() && order[k] == directory;
        let listed = tree.child_nodes(directory);
        assert(listed.contains(node));
        let j = choose|j: int| 0 <= j < listed.len() && listed[j] == node;
        sequence::lemma_flat_map_contains(order, f, k, j);
        let m = choose|m: int| 0 <= m < order.flat_map(f).len() && order.flat_map(f)[m] == node;
        assert(nodes[m + 1] == node);
    }
    assert(nodes[0] == tree.states[tree.root]);
}

/// The directories of a tree start with the root. Those that one directory lists come in the order
/// of its listing, and before all that a later directory lists.
pub proof fn directories_come_level_by_level(
    tree: TreeView,
    a: int,
    b: int,
    i: int,
    j: int,
    x: int,
    y: int,
)
    requires
        tree.valid(),
        0 <= a <= b < tree.directories().len(),
        a == b ==> i < j,
        0 <= i < tree.children(tree.directories()[a]).len(),
        0 <= j < tree.children(tree.directories()[b]).len(),
        0 <= x < tree.directories().len(),
        0 <= y < tree.directories().len(),
        tree.directories()[x] == tree.children(tree.directories()[a])[i],
        tree.directories()[y] == tree.children(tree.directories()[b])[j],
    ensures
        tree.directories()[0] == tree.root,
        x < y,
{
    breadth_first_order_exists(tree);
    let order = tree.directories();
    let f = |path: PathView| tree.child_directories(path);
    let flat = order.flat_map(f);
    assert(order =~= seq![tree.root] + flat);
    assert(lists(tree, order[a], i, order[x]));
    assert(lists(tree, order[b], j, order[y]));
    assert(order[0] == tree.root);
    if x == 0 || y == 0 {
        let parent = if x == 0 { order[a] } else { order[b] };
        assert(tree.root.strictly_below(parent));
        directories_are_the_reachable_ones(tree, parent);
        assert(order.contains(parent)) by {
            if x == 0 {
                assert(order[a] == parent);
            } else {
                assert(order[b] == parent);
            }
        }
        listed_directories_are_reached(tree, tree.root, tree.root, parent);
        assert(tree.states.contains_key(parent));
        assert(parent == tree.root || parent.strictly_below(tree.root));
    }
    if x >= y {
        if x == y {
            assert(lists(tree, order[a], i, order[x]) && lists(tree, order[b], j, order[x]));
        } else {
            let (early, late) = sequence::lemma_flat_map_order(order, f, y - 1, x - 1);
            let from = lemma_child_directory(tree, order[early.0], early.1);
            let to = lemma_child_directory(tree, order[late.0], late.1);
            assert(flat[y - 1] == order[y] && flat[x - 1] == order[x]);
            assert(lists(tree, order[early.0], from, order[y]));
            assert(lists(tree, order[late.0], to, order[x]));
            assert(order[early.0] == order[b] && order[late.0] == order[a]);
            assert(early.0 == b && late.0 == a);
            let keep = |child: PathView| tree.is_directory(child);
            let children = tree.children(order[a]);
            let dirs = children.filter(keep);
            assert(keep(children[i])) by {
                children.lemma_filter_pred(keep, late.1);
            }
            assert(keep(children[j])) by {
                children.lemma_filter_pred(keep, early.1);
            }
            let at = sequence::lemma_filter_order(children, keep, i, j);
            assert forall|m: int, n: int|
                0 <= m < children.len() && 0 <= n < children.len() && m != n implies children[m]
                != children[n] by {
                assert(lists(tree, order[a], m, children[m]) && lists(
                    tree,
                    order[a],
                    n,
                    children[n],
                ));
            }
            sequence::lemma_filter_no_duplicates(children, keep);
            assert(dirs[at.0] == dirs[late.1] && dirs[at.1] == dirs[early.1]);
        }
    }
}

/// A node that a tree accepts is held at its path from then on, and is listed by its parent: where
/// its path was listed already, or else as the last. All other nodes and listings stay as they are.
pub proof fn inserting_adds_one_node(
    tree: TreeView,
    parent: PathView,
    node: NodeView,
    other: PathView,
)
    requires
        tree.accepts(parent, node),
    ensures
        ({
            let next = tree.with_child(parent, node);
            &&& next.root == tree.root
            &&& next.state(node.path()) == Some(node)
            &&& other != node.path() ==> next.state(other) == tree.state(other)
            &&& other != parent ==> next.children(other) == tree.children(other)
            &&& tree.children(parent).contains(node.path()) ==> next.children(parent)
                == tree.children(parent)
            &&& !tree.children(parent).contains(node.path()) ==> next.children(parent)
                == tree.children(parent).push(node.path())
        }),
{
}

/// A path that a directory comes to list is its last one, and brings no node with it.
pub proof fn listing_a_path_adds_no_node(
    tree: TreeView,
    parent: PathView,
    path: PathView,
    other: PathView,
)
    requires
        tree.accepts_path(parent, path),
        tree.valid(),
    ensures
        ({
            let next = tree.with_path(parent, path);
            &&& next.root == tree.root
            &&& next.state(other) == tree.state(other)
            &&& other != parent ==> next.children(other) == tree.children(other)
            &&& next.children(parent) == tree.children(parent).push(path)
        }),
{
    if tree.children(parent).contains(path) {
        let i = choose|i: int|
            0 <= i < tree.children(parent).len() && tree.children(parent)[i] == path;
        assert(lists(tree, parent, i, path));
    }
}

/// A tree accepts a node below every directory that the node lies below, unless it holds a node at
/// that path already or another directory lists the path; it accepts no other nodes. It accepts a
/// path for a listing where no directory lists the path.
pub proof fn trees_accept_new_nodes_below_directories(
    tree: TreeView,
    parent: PathView,
    node: NodeView,
)
    requires
        tree.valid(),
    ensures
        tree.accepts(parent, node) <==> {
            &&& tree.state(parent) matches Some(NodeView::Directory { .. })
            &&& tree.state(node.path()) is None
            &&& node.path().strictly_below(parent)
            &&& forall|dir: PathView, i: int|
                0 <= i < tree.children(dir).len() && #[trigger] tree.children(dir)[i]
                    == node.path() ==> dir == parent
        },
        tree.accepts_path(parent, node.path()) <==> {
            &&& tree.state(parent) matches Some(NodeView::Directory { .. })
            &&& node.path().strictly_below(parent)
            &&& forall|dir: PathView, i: int|
                0 <= i < tree.children(dir).len() ==> #[trigger] tree.children(dir)[i]
                    != node.path()
        },
{
    let path = node.path();
    assert forall|dir: PathView, i: int|
        0 <= i < tree.children(dir).len() && #[trigger] tree.children(dir)[i]
            == path implies lists(tree, dir, i, path) by {}
    if tree.is_listed(path) {
        let (dir, i) = choose|dir: PathView, i: int| lists(tree, dir, i, path);
        assert(tree.children(dir)[i] == path);
        if dir == parent {
            assert(tree.children(parent).contains(path));
        }
    }
    if tree.children(parent).contains(path) {
        let i = choose|i: int| 0 <= i < tree.children(parent).len() && tree.children(parent)[i]
            == path;
        assert(lists(tree, parent, i, path));
    }
}

/// Whether every directory that can be reached from `current_path` has been read.
pub fn tree_is_fully_loaded(entry: &FileTreeEntry, current_path: &StandardizedPath) -> (loaded:
    bool)
    ensures
        loaded == entry@.fully_loaded_from(current_path@),
        loaded <==> forall|directory: PathView| #[trigger]
            entry@.reaches(current_path@, directory) ==> (entry@.states[directory] matches
                NodeView::Directory { loaded: read, .. } && read),
    decreases
            paths_below(entry@, current_path@).len(),
            (if entry@.is_directory(current_path@) {
                1int
            } else {
                0int
            }),
{
    proof {
        use_type_invariant(entry);
        lemma_fully_loaded(entry@, current_path@);
        fully_loaded_trees_have_every_directory_read(entry@, current_path@);
    }
    match entry.get(current_path) {
        Some(FileTreeEntryState::Directory(directory)) => {
            if !directory.loaded {
                return false;
            }
        },
        _ => {
            return true;
        },
    }
    let children: Vec<StandardizedPath> = entry.child_paths(current_path);
    let ghost listed = path_views(children@);
    let mut i: usize = 0;
    while i < children.len()
        invariant
            i <= children.len(),
            entry@.valid(),
            entry@.is_directory(current_path@),
            listed == path_views(children@),
            listed == entry@.children(current_path@),
            forall|k: int| 0 <= k < i ==> entry@.fully_loaded_from(#[trigger] listed[k]),
            entry@.fully_loaded_from(current_path@) <==> forall|k: int|
                0 <= k < entry@.children(current_path@).len() ==> entry@.fully_loaded_from(
                    #[trigger] entry@.children(current_path@)[k],
                ),
        decreases children.len() - i,
    {
        proof {
            lemma_fewer_below(entry@, current_path@, i as int);
            assert(listed[i as int] == children@[i as int]@);
        }
        if !tree_is_fully_loaded(entry, &children[i]) {
            return false;
        }
        i = i + 1;
    }
    true
}

/// Listing an acceptable path keeps the tree valid.
pub proof fn with_path_is_valid(tree: TreeView, parent: PathView, path: PathView)
    requires
        tree.valid(),
        tree.is_directory(parent),
        path.strictly_below(parent),
        !tree.is_listed(path) || tree.children(parent).contains(path),
    ensures
        tree.with_path(parent, path).valid(),
{
    let grown = tree.with_path(parent, path);
    if !tree.children(parent).contains(path) {
        let last = tree.children(parent).len() as int;
        assert forall|dir: PathView, i: int, child: PathView| #[trigger]
            lists(grown, dir, i, child) implies lists(tree, dir, i, child) || (dir == parent && i
            == last && child == path) by {
            if dir == parent && i < last {
                assert(tree.children(parent).push(path)[i] == tree.children(parent)[i]);
            }
        }
        assert forall|dir: PathView| #[trigger] grown.listings.contains_key(
            dir,
        ) implies grown.is_directory(dir) by {
            if dir != parent {
                assert(tree.listings.contains_key(dir));
            }
        }
        assert forall|a: PathView, i: int, b: PathView, j: int, child: PathView|
            #![trigger lists(grown, a, i, child), lists(grown, b, j, child)]
            lists(grown, a, i, child) && lists(grown, b, j, child) implies a == b && i == j by {
            if lists(tree, a, i, child) && lists(tree, b, j, child) {
            } else if child == path {
                assert(!lists(tree, a, i, child) && !lists(tree, b, j, child));
            }
        }
    }
}

/// Adding an acceptable node keeps the tree valid.
pub proof fn with_child_is_valid(tree: TreeView, parent: PathView, node: NodeView)
    requires
        tree.valid(),
        tree.accepts(parent, node),
        node.valid(),
    ensures
        tree.with_child(parent, node).valid(),
{
    with_path_is_valid(tree, parent, node.path());
    let listed = tree.with_path(parent, node.path());
    let grown = tree.with_child(parent, node);
    if parent != tree.root {
        path::below_is_transitive(node.path(), parent, tree.root);
    }
    assert forall|dir: PathView, i: int, child: PathView| lists(grown, dir, i, child) == lists(
        listed,
        dir,
        i,
        child,
    ) by {}
    assert forall|dir: PathView| #[trigger] grown.listings.contains_key(
        dir,
    ) implies grown.is_directory(dir) by {
        assert(listed.listings.contains_key(dir));
    }
    assert forall|path: PathView| #[trigger] grown.states.contains_key(path) implies {
        &&& grown.states[path].path() == path
        &&& path.valid()
        &&& path == grown.root || path.strictly_below(grown.root)
    } by {
        if path != node.path() {
            assert(tree.states.contains_key(path));
        }
    }
    assert forall|dir: PathView, i: int, child: PathView| #[trigger]
        lists(grown, dir, i, child) implies child.strictly_below(dir) by {
        assert(lists(listed, dir, i, child));
    }
    assert forall|a: PathView, i: int, b: PathView, j: int, child: PathView|
        #![trigger lists(grown, a, i, child), lists(grown, b, j, child)]
        lists(grown, a, i, child) && lists(grown, b, j, child) implies a == b && i == j by {
        assert(lists(listed, a, i, child) && lists(listed, b, j, child));
    }
}

/// The paths of a sequence.
pub open spec fn path_views(paths: Seq<StandardizedPath>) -> Seq<PathView> {
    paths.map_values(|path: StandardizedPath| path@)
}

/// Whether a path is one of the given ones.
fn holds_path(paths: &Vec<StandardizedPath>, path: &StandardizedPath) -> (held: bool)
    ensures
        held == path_views(paths@).contains(path@),
{
    let mut i: usize = 0;
    while i < paths.len()
        invariant
            i <= paths.len(),
            forall|k: int| 0 <= k < i ==> #[trigger] path_views(paths@)[k] != path@,
        decreases paths.len() - i,
    {
        if &paths[i] == path {
            assert(path_views(paths@)[i as int] == path@);
            return true;
        }
        i = i + 1;
    }
    false
}

/// The part of a repository's file tree that has been read.
#[derive(Debug)]
pub struct FileTreeEntry {
    root_directory: StandardizedPath,
    states: Table<StandardizedPath, FileTreeEntryState>,
    listings: Table<StandardizedPath, Vec<StandardizedPath>>,
}

/// The nodes of a table.
spec fn state_views(states: Map<PathView, FileTreeEntryState>) -> Map<PathView, NodeView> {
    states.map_values(|state: FileTreeEntryState| state@)
}

/// The listings of a table.
spec fn listing_views(listings: Map<PathView, Vec<StandardizedPath>>) -> Map<
    PathView,
    Seq<PathView>,
> {
    listings.map_values(|paths: Vec<StandardizedPath>| path_views(paths@))
}

impl View for FileTreeEntry {
    type V = TreeView;

    closed spec fn view(&self) -> TreeView {
        TreeView {
            root: self.root_directory@,
            states: state_views(self.states@),
            listings: listing_views(self.listings@),
        }
    }
}

/// The paths of some nodes.
fn paths_of(nodes: &Vec<FileTreeEntryState>) -> (paths: Vec<StandardizedPath>)
    ensures
        path_views(paths@) == listing::node_paths(listing::state_nodes(nodes@)),
{
    let mut paths: Vec<StandardizedPath> = Vec::new();
    let mut i: usize = 0;
    while i < nodes.len()
        invariant
            i <= nodes.len(),
            paths.len() == i,
            forall|k: int| 0 <= k < i ==> (#[trigger] paths@[k])@ == nodes@[k]@.path(),
        decreases nodes.len() - i,
    {
        paths.push(nodes[i].path().clone());
        i = i + 1;
    }
    assert(path_views(paths@) =~= listing::node_paths(listing::state_nodes(nodes@)));
    paths
}

/// Whether nothing is kept at `path` where `parent` lists `nodes` from now on.
fn drops(parent: &StandardizedPath, nodes: &Vec<FileTreeEntryState>, path: &StandardizedPath) -> (
    dropped: bool)
    ensures
        dropped == listing::is_dropped(parent@, listing::state_nodes(nodes@), path@),
{
    let ghost listed = listing::state_nodes(nodes@);
    if !path.is_strictly_below(parent) {
        return false;
    }
    let mut i: usize = 0;
    while i < nodes.len()
        invariant
            i <= nodes.len(),
            listed == listing::state_nodes(nodes@),
            forall|k: int|
                0 <= k < i ==> !((#[trigger] listed[k]) is Directory && path::lies_in(
                    path@,
                    listed[k].path(),
                )),
        decreases nodes.len() - i,
    {
        assert(listed[i as int] == nodes@[i as int]@);
        if let FileTreeEntryState::Directory(directory) = &nodes[i] {
            if path == &directory.path || path.is_strictly_below(&directory.path) {
                return false;
            }
        }
        i = i + 1;
    }
    true
}

/// The listings that stay where `parent` lists `nodes`, at the paths `kept`, from now on.
fn kept_listings(
    listings: Table<StandardizedPath, Vec<StandardizedPath>>,
    parent: &StandardizedPath,
    nodes: &Vec<FileTreeEntryState>,
    kept: Vec<StandardizedPath>,
) -> (left: Table<StandardizedPath, Vec<StandardizedPath>>)
    requires
        path_views(kept@) == listing::node_paths(listing::state_nodes(nodes@)),
    ensures
        listing_views(left@) == listing::listings_after(
            listing_views(listings@),
            parent@,
            listing::state_nodes(nodes@),
        ),
{
    let ghost listed = listing::state_nodes(nodes@);
    let ghost before = listing_views(listings@);
    let ghost after = listing::listings_after(before, parent@, listed);
    let dirs: Vec<StandardizedPath> = listings.keys();
    let ghost keys = table::key_views(dirs@);
    let mut left: Table<StandardizedPath, Vec<StandardizedPath>> = Table::new();
    let mut i: usize = 0;
    while i < dirs.len()
        invariant
            i <= dirs.len(),
            listed == listing::state_nodes(nodes@),
            before == listing_views(listings@),
            after == listing::listings_after(before, parent@, listed),
            path_views(kept@) == listing::node_paths(listed),
            keys == table::key_views(dirs@),
            keys.to_set() == listings@.dom(),
            forall|dir: PathView| #[trigger]
                left@.contains_key(dir) ==> dir != parent@ && after.contains_key(dir)
                    && path_views(left@[dir]@) == after[dir],
            forall|k: int|
                0 <= k < i && #[trigger] keys[k] != parent@ && after.contains_key(keys[k])
                    ==> left@.contains_key(keys[k]),
        decreases dirs.len() - i,
    {
        let dir: &StandardizedPath = &dirs[i];
        proof {
            assert(keys[i as int] == dir@);
            assert(keys.to_set().contains(dir@));
        }
        if dir != parent && !drops(parent, nodes, dir) {
            if let Some(children) = listings.get(dir) {
                let rest: Vec<StandardizedPath> = kept_children(children, parent, nodes, &kept);
                assert(before[dir@] == path_views(children@));
                let _ = left.insert(dir.clone(), rest);
            }
        }
        i = i + 1;
    }
    let _ = left.insert(parent.clone(), kept);
    assert(listing_views(left@) =~= after) by {
        assert forall|dir: PathView| after.contains_key(dir) implies left@.contains_key(dir) by {
            if dir != parent@ {
                assert(keys.to_set().contains(dir));
                let k = choose|k: int| 0 <= k < keys.len() && keys[k] == dir;
            }
        }
    }
    left
}

/// The children of another directory that stay its children where `parent` lists `nodes`, at the
/// paths `kept`, from now on.
fn kept_children(
    children: &Vec<StandardizedPath>,
    parent: &StandardizedPath,
    nodes: &Vec<FileTreeEntryState>,
    kept: &Vec<StandardizedPath>,
) -> (rest: Vec<StandardizedPath>)
    requires
        path_views(kept@) == listing::node_paths(listing::state_nodes(nodes@)),
    ensures
        path_views(rest@) == listing::children_after(
            path_views(children@),
            parent@,
            listing::state_nodes(nodes@),
        ),
{
    let ghost listed = listing::state_nodes(nodes@);
    let ghost paths = path_views(children@);
    let ghost keep = |child: PathView|
        !listing::is_dropped(parent@, listed, child) && !listing::node_paths(listed).contains(
            child,
        );
    let mut rest: Vec<StandardizedPath> = Vec::new();
    assert(path_views(rest@) =~= paths.take(0).filter(keep)) by {
        reveal(Seq::filter);
    }
    let mut i: usize = 0;
    while i < children.len()
        invariant
            i <= children.len(),
            listed == listing::state_nodes(nodes@),
            paths == path_views(children@),
            path_views(kept@) == listing::node_paths(listed),
            keep == (|child: PathView|
                !listing::is_dropped(parent@, listed, child) && !listing::node_paths(
                    listed,
                ).contains(child)),
            path_views(rest@) == paths.take(i as int).filter(keep),
        decreases children.len() - i,
    {
        let child: &StandardizedPath = &children[i];
        let ghost before = rest@;
        proof {
            assert(paths.take(i + 1) =~= paths.take(i as int).push(child@));
            sequence::lemma_filter_push(paths.take(i as int), child@, keep);
        }
        if !drops(parent, nodes, child) && !holds_path(kept, child) {
            rest.push(child.clone());
            assert(path_views(rest@) =~= path_views(before).push(child@));
        }
        i = i + 1;
    }
    assert(paths.take(children.len() as int) =~= paths);
    rest
}

/// The nodes that stay where `parent` lists `nodes` from now on, and those.
fn kept_states(
    states: Table<StandardizedPath, FileTreeEntryState>,
    parent: &StandardizedPath,
    nodes: Vec<FileTreeEntryState>,
) -> (left: Table<StandardizedPath, FileTreeEntryState>)
    requires
        listing::is_listing(parent@, listing::state_nodes(nodes@)),
    ensures
        state_views(left@) == listing::states_after(
            state_views(states@),
            parent@,
            listing::state_nodes(nodes@),
        ),
{
    let ghost listed = listing::state_nodes(nodes@);
    let ghost paths = listing::node_paths(listed);
    let ghost before = states@;
    let ghost after = listing::states_after(state_views(before), parent@, listed);
    let known: Vec<StandardizedPath> = states.keys();
    let ghost keys = table::key_views(known@);
    let mut left: Table<StandardizedPath, FileTreeEntryState> = states;
    let mut i: usize = 0;
    while i < known.len()
        invariant
            i <= known.len(),
            listed == listing::state_nodes(nodes@),
            keys == table::key_views(known@),
            keys.to_set() == before.dom(),
            forall|path: PathView| #[trigger]
                left@.contains_key(path) ==> before.contains_key(path) && left@[path]
                    == before[path],
            forall|path: PathView| #[trigger]
                before.contains_key(path) && !listing::is_dropped(parent@, listed, path)
                    ==> left@.contains_key(path),
            forall|k: int|
                0 <= k < i && listing::is_dropped(parent@, listed, #[trigger] keys[k])
                    ==> !left@.contains_key(keys[k]),
        decreases known.len() - i,
    {
        assert(keys[i as int] == known@[i as int]@);
        if drops(parent, &nodes, &known[i]) {
            let _ = left.remove(&known[i]);
        }
        i = i + 1;
    }
    assert forall|path: PathView| #[trigger] left@.contains_key(path) implies !listing::is_dropped(
        parent@,
        listed,
        path,
    ) by {
        assert(keys.to_set().contains(path));
        let k = choose|k: int| 0 <= k < keys.len() && keys[k] == path;
    }
    let ghost kept = left@;
    for node in iter: nodes.into_iter()
        invariant
            iter.seq() == nodes@,
            listed == listing::state_nodes(nodes@),
            paths == listing::node_paths(listed),
            forall|path: PathView| #[trigger]
                left@.contains_key(path) <==> kept.contains_key(path) || paths.take(
                    iter.index(),
                ).contains(path),
            forall|path: PathView| #[trigger]
                kept.contains_key(path) && !paths.take(iter.index()).contains(path) ==> left@[path]
                    == kept[path],
            forall|k: int|
                0 <= k < iter.index() ==> left@[#[trigger] paths[k]]@ == listed[k],
            paths.no_duplicates(),
    {
        proof {
            let n = iter.index();
            assert(listed[n] == node@ && paths[n] == node@.path());
            let taken = paths.take(n);
            assert(paths.take(n + 1) =~= taken.push(paths[n]));
            assert forall|path: PathView| paths.take(n + 1).contains(path) <==> taken.contains(path)
                || path == paths[n] by {
                if taken.contains(path) {
                    let k = choose|k: int| 0 <= k < taken.len() && taken[k] == path;
                    assert(paths.take(n + 1)[k] == path);
                }
                assert(paths.take(n + 1)[n] == paths[n]);
            }
        }
        let path: StandardizedPath = node.path().clone();
        let _ = left.insert(path, node);
    }
    proof {
        assert(paths.take(paths.len() as int) =~= paths);
        assert forall|path: PathView| paths.contains(path) implies left@[path]@
            == listed[paths.index_of(path)] by {
            let k = paths.index_of(path);
            assert(paths[k] == path);
        }
        assert(state_views(left@) =~= after);
    }
    left
}

impl FileTreeEntry {
    /// Holds of every tree.
    #[verifier::type_invariant]
    pub open spec fn well_formed(&self) -> bool {
        self@.valid()
    }

    /// A tree that holds a root directory alone.
    pub fn new(root: DirectoryNodeMetadata) -> (tree: FileTreeEntry)
        ensures
            tree@.valid(),
            tree@ == (TreeView {
                root: root@.path(),
                states: map![root@.path() => root@],
                listings: Map::empty(),
            }),
    {
        let root_directory: StandardizedPath = root.path.clone();
        let mut states: Table<StandardizedPath, FileTreeEntryState> = Table::new();
        let listings: Table<StandardizedPath, Vec<StandardizedPath>> = Table::new();
        proof {
            use_type_invariant(&root.path);
        }
        let ghost node = root@;
        let _ = states.insert(root.path.clone(), FileTreeEntryState::Directory(root));
        proof {
            assert(state_views(states@) =~= map![node.path() => node]);
            assert(listing_views(listings@) =~= Map::empty());
        }
        FileTreeEntry { root_directory, states, listings }
    }

    /// A tree that holds one read, empty directory.
    pub fn new_for_directory(path: StandardizedPath) -> (tree: FileTreeEntry)
        ensures
            tree@.valid(),
            tree@ == (TreeView {
                root: path@,
                states: map![
                    path@ => NodeView::Directory { path: path@, ignored: false, loaded: true },
                ],
                listings: Map::empty(),
            }),
    {
        FileTreeEntry::new(DirectoryNodeMetadata { path, ignored: false, loaded: true })
    }

    /// Whether `path` is a directory of the tree.
    pub fn is_directory(&self, path: &StandardizedPath) -> (directory: bool)
        ensures
            directory == self@.is_directory(path@),
    {
        match self.get(path) {
            Some(FileTreeEntryState::Directory(_)) => true,
            _ => false,
        }
    }

    /// Whether some directory lists `path`.
    pub fn is_listed(&self, path: &StandardizedPath) -> (listed: bool)
        ensures
            listed == self@.is_listed(path@),
    {
        let parents: Vec<StandardizedPath> = self.listings.keys();
        let ghost keys = table::key_views(parents@);
        let mut i: usize = 0;
        while i < parents.len()
            invariant
                i <= parents.len(),
                keys == table::key_views(parents@),
                keys.to_set() == self.listings@.dom(),
                forall|k: int| 0 <= k < i ==> !self@.children(#[trigger] keys[k]).contains(path@),
            decreases parents.len() - i,
        {
            let children: Vec<StandardizedPath> = self.child_paths(&parents[i]);
            let ghost paths = path_views(children@);
            assert(keys[i as int] == parents@[i as int]@);
            if holds_path(&children, path) {
                proof {
                    let k = choose|k: int| 0 <= k < paths.len() && paths[k] == path@;
                    assert(keys.to_set().contains(keys[i as int]));
                    assert(lists(self@, keys[i as int], k, path@));
                }
                return true;
            }
            i = i + 1;
        }
        proof {
            if self@.is_listed(path@) {
                let (parent, k) = choose|parent: PathView, k: int| lists(self@, parent, k, path@);
                assert(keys.to_set().contains(parent));
                let m = choose|m: int| 0 <= m < keys.len() && keys[m] == parent;
                assert(self@.children(keys[m])[k] == path@);
            }
        }
        false
    }

    /// Lists `path` as the last child of `parent` before anything is known of it; gives the tree
    /// back unchanged where `parent` is no directory of the tree, or `path` is listed already or
    /// does not lie below `parent`.
    pub fn insert_path(self, parent: &StandardizedPath, path: StandardizedPath) -> (tree: Result<
        FileTreeEntry,
        FileTreeEntry,
    >)
        ensures
            match tree {
                Ok(tree) => {
                    &&& self@.accepts_path(parent@, path@)
                    &&& tree@ == self@.with_path(parent@, path@)
                },
                Err(tree) => !self@.accepts_path(parent@, path@) && tree@ == self@,
            },
    {
        if !self.is_directory(parent) || !path.is_strictly_below(parent) || self.is_listed(&path) {
            return Err(self);
        }
        Ok(self.list_last(parent, path))
    }

    /// Lists a path behind what `parent` lists, unless `parent` lists it already.
    fn list_last(self, parent: &StandardizedPath, path: StandardizedPath) -> (tree: FileTreeEntry)
        requires
            self@.is_directory(parent@),
            path@.strictly_below(parent@),
            !self@.is_listed(path@) || self@.children(parent@).contains(path@),
        ensures
            tree@ == self@.with_path(parent@, path@),
    {
        proof {
            use_type_invariant(&self);
            with_path_is_valid(self@, parent@, path@);
        }
        let mut children: Vec<StandardizedPath> = self.child_paths(parent);
        if holds_path(&children, &path) {
            return self;
        }
        let ghost tree = self@;
        let ghost before = children@;
        let FileTreeEntry { root_directory, states, mut listings } = self;
        let ghost known = listings@;
        children.push(path);
        let _ = listings.insert(parent.clone(), children);
        proof {
            assert(path_views(children@) =~= path_views(before).push(path@));
            assert(listing_views(listings@) =~= tree.with_path(parent@, path@).listings);
        }
        FileTreeEntry { root_directory, states, listings }
    }

    /// Adds `node` as a child of `parent`, the last one unless its path is listed there already;
    /// gives the tree back unchanged where `parent` is no directory of the tree, or `node` is in
    /// the tree already, does not lie below `parent`, or is listed by another directory.
    pub fn insert(self, parent: &StandardizedPath, node: FileTreeEntryState) -> (tree: Result<
        FileTreeEntry,
        FileTreeEntry,
    >)
        ensures
            match tree {
                Ok(tree) => {
                    &&& self@.accepts(parent@, node@)
                    &&& tree@ == self@.with_child(parent@, node@)
                },
                Err(tree) => !self@.accepts(parent@, node@) && tree@ == self@,
            },
    {
        if !self.is_directory(parent) || self.contains(node.path())
            || !node.path().is_strictly_below(parent) {
            return Err(self);
        }
        if self.is_listed(node.path()) && !holds_path(&self.child_paths(parent), node.path()) {
            return Err(self);
        }
        let path: StandardizedPath = node.path().clone();
        proof {
            use_type_invariant(&self);
            use_type_invariant(&path);
            with_child_is_valid(self@, parent@, node@);
        }
        let ghost grown = self@.with_child(parent@, node@);
        let listed: FileTreeEntry = self.list_last(parent, path.clone());
        let FileTreeEntry { root_directory, mut states, listings } = listed;
        let _ = states.insert(path, node);
        assert(state_views(states@) =~= grown.states);
        Ok(FileTreeEntry { root_directory, states, listings })
    }

    /// Makes `parent` list exactly `nodes`. What else was below it goes, but for what lies in the
    /// directories among `nodes`.
    pub(crate) fn replace_listing(
        self,
        parent: &StandardizedPath,
        nodes: Vec<FileTreeEntryState>,
    ) -> (tree: FileTreeEntry)
        requires
            self@.is_directory(parent@),
            listing::is_listing(parent@, listing::state_nodes(nodes@)),
            forall|i: int|
                0 <= i < nodes.len() ==> (#[trigger] listing::state_nodes(nodes@)[i]).valid(),
        ensures
            tree@ == self@.with_listing(parent@, listing::state_nodes(nodes@)),
    {
        let ghost listed = listing::state_nodes(nodes@);
        let ghost next = self@.with_listing(parent@, listed);
        let ghost paths = listing::node_paths(listed);
        proof {
            use_type_invariant(&self);
            listing::with_listing_is_valid(self@, parent@, listed);
        }
        let FileTreeEntry { root_directory, states, listings } = self;
        let kept: Vec<StandardizedPath> = paths_of(&nodes);
        let listings: Table<StandardizedPath, Vec<StandardizedPath>> = kept_listings(
            listings,
            parent,
            &nodes,
            kept,
        );
        let states: Table<StandardizedPath, FileTreeEntryState> = kept_states(
            states,
            parent,
            nodes,
        );
        proof {
            assert(state_views(states@) =~= next.states);
            assert(listing_views(listings@) =~= next.listings);
        }
        FileTreeEntry { root_directory, states, listings }
    }

    /// Marks the directory at `path` loaded, if it has a listing.
    pub(crate) fn mark_loaded(self, path: &StandardizedPath) -> (tree: FileTreeEntry)
        ensures
            tree@ == self@.marked(path@),
    {
        if self.listings.get(path).is_none() {
            return self;
        }
        let ghost tree = self@;
        proof {
            use_type_invariant(&self);
            listing::marked_is_valid(self@, path@);
        }
        let FileTreeEntry { root_directory, mut states, listings } = self;
        let ghost before = states@;
        match states.remove(path) {
            Some(FileTreeEntryState::Directory(mut directory)) => {
                directory.loaded = true;
                let _ = states.insert(path.clone(), FileTreeEntryState::Directory(directory));
            },
            Some(FileTreeEntryState::File(file)) => {
                let _ = states.insert(path.clone(), FileTreeEntryState::File(file));
            },
            None => {},
        }
        assert(state_views(states@) =~= tree.marked(path@).states);
        FileTreeEntry { root_directory, states, listings }
    }

    /// The directory that the tree starts at.
    pub fn root_directory(&self) -> (path: &StandardizedPath)
        ensures
            path@ == self@.root,
            self@.valid(),
    {
        proof {
            use_type_invariant(self);
        }
        &self.root_directory
    }

    /// The node at `path`.
    pub fn get(&self, path: &StandardizedPath) -> (node: Option<&FileTreeEntryState>)
        ensures
            match node {
                Some(node) => self@.state(path@) == Some(node@),
                None => self@.state(path@) is None,
            },
    {
        self.states.get(path)
    }

    /// Whether the tree holds a node at `path`.
    pub fn contains(&self, path: &StandardizedPath) -> (held: bool)
        ensures
            held == self@.states.contains_key(path@),
    {
        self.get(path).is_some()
    }

    /// The paths listed below `path`, in listing order.
    pub fn child_paths(&self, path: &StandardizedPath) -> (children: Vec<StandardizedPath>)
        ensures
            path_views(children@) == self@.children(path@),
    {
        match self.listings.get(path) {
            Some(listed) => {
                let children: Vec<StandardizedPath> = listed.clone();
                assert(path_views(children@) =~= path_views(listed@));
                children
            },
            None => {
                let children: Vec<StandardizedPath> = Vec::new();
                assert(path_views(children@) =~= Seq::empty());
                children
            },
        }
    }

    /// The directories of the tree, level by level from the root.
    pub fn directories(&self) -> (order: Vec<StandardizedPath>)
        ensures
            self@.valid(),
            self@.is_breadth_first(path_views(order@)),
            path_views(order@) == self@.directories(),
            path_views(order@).no_duplicates(),
    {
        let ghost tree = self@;
        proof {
            use_type_invariant(self);
            lemma_walk_starts(tree);
        }
        let mut order: Vec<StandardizedPath> = Vec::new();
        let mut queue: VecDeque<StandardizedPath> = VecDeque::new();
        queue.push_back(self.root_directory.clone());
        proof {
            assert(path_views(order@) =~= Seq::empty());
            assert(path_views(queue@) =~= seq![tree.root]);
        }
        loop
            invariant
                tree == self@,
                tree.valid(),
                walks(tree, path_views(order@), path_views(queue@)),
            ensures
                queue@.len() == 0,
            decreases tree.states.dom().len() - order@.len(),
        {
            let ghost visited = path_views(order@);
            let ghost waiting = path_views(queue@);
            match queue.pop_front() {
                None => {
                    break ;
                },
                Some(current) => {
                    proof {
                        lemma_walk_steps(tree, visited, waiting);
                        assert(waiting[0] == current@);
                    }
                    let children: Vec<StandardizedPath> = self.child_paths(&current);
                    let ghost rest = path_views(queue@);
                    let ghost listed = path_views(children@);
                    let ghost keep = |child: PathView| tree.is_directory(child);
                    let mut i: usize = 0;
                    proof {
                        reveal(Seq::filter);
                        assert(rest =~= waiting.drop_first());
                        assert(rest + listed.take(0).filter(keep) =~= rest);
                    }
                    while i < children.len()
                        invariant
                            i <= children.len(),
                            tree == self@,
                            listed == path_views(children@),
                            keep == (|child: PathView| tree.is_directory(child)),
                            path_views(queue@) == rest + listed.take(i as int).filter(keep),
                        decreases children.len() - i,
                    {
                        let ghost before = path_views(queue@);
                        proof {
                            assert(listed.take(i + 1) =~= listed.take(i as int).push(listed[i as int]));
                            sequence::lemma_filter_push(
                                listed.take(i as int),
                                listed[i as int],
                                keep,
                            );
                        }
                        match self.get(&children[i]) {
                            Some(FileTreeEntryState::Directory(_)) => {
                                queue.push_back(children[i].clone());
                                assert(path_views(queue@) =~= before.push(listed[i as int]));
                                assert(path_views(queue@) =~= rest + listed.take(i + 1).filter(keep));
                            },
                            _ => {},
                        }
                        i = i + 1;
                    }
                    order.push(current);
                    proof {
                        assert(listed.take(children@.len() as int) =~= listed);
                        assert(path_views(order@) =~= visited.push(current@));
                    }
                },
            }
        }
        proof {
            assert(path_views(queue@) =~= Seq::empty());
            lemma_walk_ends(tree, path_views(order@));
        }
        order
    }

    /// The nodes of the tree, level by level from the root.
    pub fn nodes(&self) -> (nodes: Vec<RepoContent<'_>>)
        ensures
            self@.valid(),
            node::borrowed_views(nodes@) == self@.nodes(),
    {
        let ghost tree = self@;
        let ghost f = |path: PathView| tree.child_nodes(path);
        let ghost state = |child: PathView| tree.state(child);
        let order: Vec<StandardizedPath> = self.directories();
        let ghost paths = path_views(order@);
        let mut nodes: Vec<RepoContent<'_>> = Vec::new();
        if let Some(root) = self.get(&self.root_directory) {
            nodes.push(root.as_content());
        }
        let mut i: usize = 0;
        proof {
            sequence::lemma_flat_map_empty(f);
            assert(paths.take(0) =~= Seq::empty());
            assert(node::borrowed_views(nodes@) =~= seq![tree.states[tree.root]] + paths.take(
                0,
            ).flat_map(f));
        }
        while i < order.len()
            invariant
                i <= order.len(),
                tree == self@,
                paths == path_views(order@),
                f == (|path: PathView| tree.child_nodes(path)),
                state == (|child: PathView| tree.state(child)),
                node::borrowed_views(nodes@) == seq![tree.states[tree.root]] + paths.take(
                    i as int,
                ).flat_map(f),
            decreases order.len() - i,
        {
            let children: Vec<StandardizedPath> = self.child_paths(&order[i]);
            let ghost listed = path_views(children@);
            let ghost before = node::borrowed_views(nodes@);
            let mut k: usize = 0;
            assert(before + listed.take(0).filter_map(state) =~= before);
            while k < children.len()
                invariant
                    k <= children.len(),
                    tree == self@,
                    listed == path_views(children@),
                    state == (|child: PathView| tree.state(child)),
                    node::borrowed_views(nodes@) == before + listed.take(k as int).filter_map(
                        state,
                    ),
                decreases children.len() - k,
            {
                let ghost known = node::borrowed_views(nodes@);
                proof {
                    assert(listed.take(k + 1) =~= listed.take(k as int).push(listed[k as int]));
                    sequence::lemma_filter_map_push(
                        listed.take(k as int),
                        listed[k as int],
                        state,
                    );
                }
                if let Some(node) = self.get(&children[k]) {
                    let content = node.as_content();
                    nodes.push(content);
                    proof {
                        assert(node::borrowed_views(nodes@) =~= known.push(content@));
                        assert(node::borrowed_views(nodes@) =~= before + listed.take(
                            k + 1,
                        ).filter_map(state));
                    }
                }
                k = k + 1;
            }
            proof {
                assert(listed.take(k as int) =~= listed);
                assert(paths.take(i + 1) =~= paths.take(i as int).push(paths[i as int]));
                sequence::lemma_flat_map_push(paths.take(i as int), paths[i as int], f);
                assert(node::borrowed_views(nodes@) =~= seq![tree.states[tree.root]] + paths.take(
                    i + 1,
                ).flat_map(f));
            }
            i = i + 1;
        }
        assert(paths.take(i as int) =~= paths);
        nodes
    }
}

} // verus!
