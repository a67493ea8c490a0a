use repo_metadata::node::{
    DirectoryNodeMetadata, FileNodeMetadata, FileTreeEntryState, RepoNodeMetadata,
};
use repo_metadata::path::StandardizedPath;
use repo_metadata::tree::{tree_is_fully_loaded, FileTreeEntry};
use repo_metadata::update::FileTreeEntryUpdate;

fn path(text: &str) -> StandardizedPath {
    StandardizedPath::try_new(text).unwrap()
}

fn directory(text: &str, loaded: bool) -> FileTreeEntryState {
    FileTreeEntryState::Directory(DirectoryNodeMetadata {
        path: path(text),
        ignored: false,
        loaded,
    })
}

fn file(text: &str) -> FileTreeEntryState {
    FileTreeEntryState::File(FileNodeMetadata {
        path: path(text),
        extension: None,
        ignored: false,
    })
}

fn insert(tree: FileTreeEntry, parent: &str, node: FileTreeEntryState) -> FileTreeEntry {
    tree.insert(&path(parent), node).unwrap()
}

#[test]
fn directories_come_level_by_level() {
    let tree = FileTreeEntry::new_for_directory(path("/r"));
    let tree = insert(tree, "/r", directory("/r/a", true));
    let tree = insert(tree, "/r/a", directory("/r/a/x", true));
    let tree = insert(tree, "/r", file("/r/f"));
    let tree = insert(tree, "/r", directory("/r/b", true));
    let tree = insert(tree, "/r/b", directory("/r/b/y", true));
    let tree = insert(tree, "/r/a", file("/r/a/g"));
    let order: Vec<String> = tree
        .directories()
        .iter()
        .map(|path| path.to_string())
        .collect();
    assert_eq!(order, vec!["/r", "/r/a", "/r/b", "/r/a/x", "/r/b/y"]);
    assert_eq!(tree.nodes().len(), 7);
    assert_eq!(tree.root_directory(), &path("/r"));
    assert_eq!(
        tree.child_paths(&path("/r")),
        vec![path("/r/a"), path("/r/f"), path("/r/b")]
    );
    assert!(tree.child_paths(&path("/r/f")).is_empty());
    assert!(tree.contains(&path("/r/a/x")));
    assert!(!tree.contains(&path("/r/a/z")));
    assert!(matches!(
        tree.get(&path("/r/f")),
        Some(FileTreeEntryState::File(_))
    ));
}

#[test]
fn nodes_that_do_not_fit_are_refused() {
    let tree = FileTreeEntry::new_for_directory(path("/r"));
    let tree = insert(tree, "/r", file("/r/f"));
    let tree = tree.insert(&path("/r"), file("/r/f")).unwrap_err();
    let tree = tree.insert(&path("/r/f"), file("/r/f/x")).unwrap_err();
    let tree = tree.insert(&path("/r/none"), file("/r/none/x")).unwrap_err();
    let tree = tree.insert(&path("/r"), file("/other")).unwrap_err();
    let tree = tree.insert(&path("/r"), directory("/r", true)).unwrap_err();
    assert_eq!(tree.nodes().len(), 2);
}

#[test]
fn one_unread_directory_makes_a_tree_incomplete() {
    let tree = FileTreeEntry::new_for_directory(path("/r"));
    let tree = insert(tree, "/r", directory("/r/a", true));
    let tree = insert(tree, "/r", directory("/r/b", true));
    assert!(tree_is_fully_loaded(&tree, &path("/r")));
    let tree = insert(tree, "/r/b", directory("/r/b/c", false));
    assert!(!tree_is_fully_loaded(&tree, &path("/r")));
    assert!(!tree_is_fully_loaded(&tree, &path("/r/b")));
    assert!(tree_is_fully_loaded(&tree, &path("/r/a")));
    assert!(tree_is_fully_loaded(&tree, &path("/elsewhere")));
}

#[test]
fn a_path_can_be_listed_before_anything_is_known_of_it() {
    let tree = FileTreeEntry::new_for_directory(path("/r"));
    let tree = insert(tree, "/r", directory("/r/a", true));
    let tree = tree.insert_path(&path("/r"), path("/r/b")).unwrap();
    let tree = insert(tree, "/r", file("/r/c"));
    let listed = vec![path("/r/a"), path("/r/b"), path("/r/c")];
    assert_eq!(tree.child_paths(&path("/r")), listed);
    assert!(tree.is_listed(&path("/r/b")));
    assert!(!tree.contains(&path("/r/b")));
    assert_eq!(tree.nodes().len(), 3);
    assert_eq!(tree.directories(), vec![path("/r"), path("/r/a")]);
    assert!(tree_is_fully_loaded(&tree, &path("/r")));

    let tree = tree.insert_path(&path("/r"), path("/r/b")).unwrap_err();
    let tree = tree.insert_path(&path("/r/c"), path("/r/c/x")).unwrap_err();
    let tree = tree.insert_path(&path("/r/a"), path("/r/x")).unwrap_err();
    let tree = insert(tree, "/r", directory("/r/b", false));
    assert_eq!(tree.child_paths(&path("/r")), listed);
    assert!(tree.is_directory(&path("/r/b")));
    assert!(!tree_is_fully_loaded(&tree, &path("/r")));
}

#[test]
fn a_node_goes_where_its_path_is_listed() {
    let tree = FileTreeEntry::new_for_directory(path("/r"));
    let tree = insert(tree, "/r", directory("/r/a", true));
    let tree = tree.insert_path(&path("/r"), path("/r/a/x")).unwrap();
    let tree = tree.insert(&path("/r/a"), file("/r/a/x")).unwrap_err();
    let tree = insert(tree, "/r", file("/r/a/x"));
    assert!(tree.child_paths(&path("/r/a")).is_empty());
    assert_eq!(tree.child_paths(&path("/r")).len(), 2);
}

fn sent_directory(text: &str, loaded: bool) -> RepoNodeMetadata {
    RepoNodeMetadata::Directory(DirectoryNodeMetadata {
        path: path(text),
        ignored: false,
        loaded,
    })
}

fn sent_file(text: &str) -> RepoNodeMetadata {
    RepoNodeMetadata::File(FileNodeMetadata {
        path: path(text),
        extension: None,
        ignored: false,
    })
}

fn entry(parent: &str, nodes: Vec<RepoNodeMetadata>) -> FileTreeEntryUpdate {
    FileTreeEntryUpdate {
        parent_path_to_replace: path(parent),
        subtree_metadata: nodes,
    }
}

fn known(tree: &FileTreeEntry, parent: &str) -> Vec<String> {
    tree.child_paths(&path(parent))
        .iter()
        .filter(|child| tree.contains(child))
        .map(|child| child.to_string())
        .collect()
}

#[test]
fn a_loaded_directory_lists_what_was_read_and_nothing_else() {
    let tree = FileTreeEntry::new_for_directory(path("/r"));
    let tree = insert(tree, "/r", directory("/r/a", false));
    let tree = insert(tree, "/r/a", file("/r/a/old"));
    let tree = insert(tree, "/r/a", directory("/r/a/kept", true));
    let tree = insert(tree, "/r/a/kept", file("/r/a/kept/f"));
    let tree = insert(tree, "/r/a", directory("/r/a/gone", true));
    let tree = insert(tree, "/r/a/gone", file("/r/a/gone/f"));
    let tree = insert(tree, "/r", file("/r/g"));
    let tree = tree.load_directories(&vec![entry(
        "/r/a",
        vec![
            sent_file("/r/a/new"),
            sent_directory("/r/a/kept", false),
            sent_file("/r/a/new"),
            sent_file("/r/a/far/below"),
            sent_file("/r/elsewhere"),
        ],
    )]);
    assert_eq!(known(&tree, "/r/a"), vec!["/r/a/new", "/r/a/kept"]);
    assert_eq!(tree.get(&path("/r/a")), Some(&directory("/r/a", true)));
    assert_eq!(
        tree.get(&path("/r/a/kept")),
        Some(&directory("/r/a/kept", false))
    );
    assert_eq!(known(&tree, "/r/a/kept"), vec!["/r/a/kept/f"]);
    assert!(!tree.contains(&path("/r/a/old")));
    assert!(!tree.contains(&path("/r/a/gone")));
    assert!(!tree.contains(&path("/r/a/gone/f")));
    assert!(!tree.contains(&path("/r/elsewhere")));
    assert_eq!(known(&tree, "/r"), vec!["/r/a", "/r/g"]);
}

#[test]
fn an_empty_directory_is_loaded_too() {
    let tree = FileTreeEntry::new_for_directory(path("/r"));
    let tree = insert(tree, "/r", directory("/r/a", false));
    assert!(!tree_is_fully_loaded(&tree, &path("/r")));
    let tree = tree.load_directories(&vec![entry("/r/a", Vec::new())]);
    assert!(tree_is_fully_loaded(&tree, &path("/r")));
    assert!(tree.child_paths(&path("/r/a")).is_empty());
}

#[test]
fn directories_of_one_answer_are_loaded_in_turn() {
    let tree = FileTreeEntry::new(DirectoryNodeMetadata {
        path: path("/r"),
        ignored: false,
        loaded: false,
    });
    let tree = tree.load_directories(&vec![
        entry("/r/late", vec![sent_file("/r/late/x")]),
        entry("/r", vec![sent_directory("/r/a", false), sent_directory("/r/late", false)]),
        entry("/r/a", vec![sent_file("/r/a/first")]),
        entry("/r/a", vec![sent_file("/r/a/second")]),
        entry("/above", vec![sent_file("/above/x")]),
    ]);
    assert_eq!(known(&tree, "/r"), vec!["/r/a", "/r/late"]);
    assert_eq!(tree.get(&path("/r")), Some(&directory("/r", true)));
    assert_eq!(tree.get(&path("/r/a")), Some(&directory("/r/a", true)));
    assert_eq!(known(&tree, "/r/a"), vec!["/r/a/second"]);
    assert_eq!(
        tree.get(&path("/r/late")),
        Some(&directory("/r/late", false))
    );
    assert!(!tree.contains(&path("/r/late/x")));
    assert!(!tree.contains(&path("/above/x")));
}

#[test]
fn a_directory_that_became_a_file_loses_what_was_in_it() {
    let tree = FileTreeEntry::new_for_directory(path("/r"));
    let tree = insert(tree, "/r", directory("/r/a", true));
    let tree = insert(tree, "/r/a", file("/r/a/f"));
    let tree = tree.load_directories(&vec![entry("/r", vec![sent_file("/r/a")])]);
    assert_eq!(tree.get(&path("/r/a")), Some(&file("/r/a")));
    assert!(tree.child_paths(&path("/r/a")).is_empty());
    assert!(!tree.contains(&path("/r/a/f")));
}
