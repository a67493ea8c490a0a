use repo_metadata::node::{
    DirectoryNodeMetadata, FileNodeMetadata, FileTreeEntryState, OwnedRepoContent,
    RepoNodeMetadata,
};
use repo_metadata::path::StandardizedPath;
use repo_metadata::proto;
use repo_metadata::query::{RepoContentsQueryBudget, RepoContentsQueryError, RepoMetadataQuery};
use repo_metadata::repo_metadata_proto::{
    file_tree_children_to_proto_entries, file_tree_entry_to_snapshot_proto,
    proto_load_repo_metadata_directory_response_to_update,
    proto_query_repo_metadata_response_to_contents, proto_snapshot_to_update,
    proto_to_repo_metadata_query, proto_to_repo_metadata_update,
    query_repo_metadata_budget_exceeded_response_to_proto, query_repo_metadata_response_to_proto,
    repo_metadata_query_to_proto, skipped_removals,
};
use repo_metadata::tree::FileTreeEntry;
use repo_metadata::update::{FileTreeEntryUpdate, RepoMetadataUpdate};

fn path(text: &str) -> StandardizedPath {
    StandardizedPath::try_new(text).unwrap()
}

fn directory(text: &str, loaded: bool) -> DirectoryNodeMetadata {
    DirectoryNodeMetadata {
        path: path(text),
        ignored: false,
        loaded,
    }
}

fn file(text: &str, extension: Option<&str>) -> FileNodeMetadata {
    FileNodeMetadata {
        path: path(text),
        extension: extension.map(|extension| extension.to_string()),
        ignored: true,
    }
}

fn wire_directory(text: &str, loaded: bool) -> proto::RepoNodeMetadata {
    proto::RepoNodeMetadata {
        node: Some(proto::Node::Directory(proto::DirectoryNodeMetadata {
            path: text.to_string(),
            ignored: false,
            loaded,
        })),
    }
}

fn wire_file(text: &str, extension: Option<&str>) -> proto::RepoNodeMetadata {
    proto::RepoNodeMetadata {
        node: Some(proto::Node::File(proto::FileNodeMetadata {
            path: text.to_string(),
            extension: extension.map(|extension| extension.to_string()),
            ignored: true,
        })),
    }
}

fn tree() -> FileTreeEntry {
    let tree = FileTreeEntry::new_for_directory(path("/repo"));
    let tree = tree
        .insert(
            &path("/repo"),
            FileTreeEntryState::Directory(directory("/repo/a", true)),
        )
        .unwrap();
    let tree = tree
        .insert(
            &path("/repo/a"),
            FileTreeEntryState::Directory(directory("/repo/a/deep", true)),
        )
        .unwrap();
    let tree = tree
        .insert(
            &path("/repo"),
            FileTreeEntryState::Directory(directory("/repo/b", false)),
        )
        .unwrap();
    let tree = tree
        .insert(
            &path("/repo"),
            FileTreeEntryState::File(file("/repo/README.md", Some("md"))),
        )
        .unwrap();
    tree.insert(
        &path("/repo/a/deep"),
        FileTreeEntryState::File(file("/repo/a/deep/x", None)),
    )
    .unwrap()
}

#[test]
fn serializes_empty_loaded_directory_as_authoritative_replacement() {
    let directory = StandardizedPath::try_new("/repo/empty").unwrap();
    let tree = FileTreeEntry::new_for_directory(directory.clone());

    let entries = file_tree_children_to_proto_entries(&tree, &directory);

    assert_eq!(entries.len(), 1);
    assert_eq!(entries[0].parent_path_to_replace, directory.to_string());
    assert!(entries[0].subtree_metadata.is_empty());
}

#[test]
fn typed_query_round_trips_through_proto() {
    let query = RepoMetadataQuery::ProjectSkillFiles {
        provider_paths: vec![".agents/skills".to_string(), ".warp/skills".to_string()],
    };

    let proto = repo_metadata_query_to_proto(query.clone());

    assert_eq!(proto_to_repo_metadata_query(&proto), Some(query));
}

#[test]
fn authoritative_query_response_preserves_matches_and_budget_failure() {
    let budget = RepoContentsQueryBudget {
        max_entries_scanned: 7,
    };
    let matches = vec![OwnedRepoContent::File {
        path: StandardizedPath::try_new("/repo/.agents/skills/demo/SKILL.md").unwrap(),
        extension: Some("md".to_string()),
        ignored: false,
    }];

    let response = query_repo_metadata_response_to_proto(&matches, budget);
    assert_eq!(
        proto_query_repo_metadata_response_to_contents(&response).unwrap(),
        matches
    );

    let response = query_repo_metadata_budget_exceeded_response_to_proto(budget);
    assert!(matches!(
        proto_query_repo_metadata_response_to_contents(&response),
        Err(RepoContentsQueryError::QueryBudgetExceeded { limit: 7 })
    ));
}

#[test]
fn missing_query_is_no_query() {
    assert_eq!(
        proto_to_repo_metadata_query(&proto::RepoMetadataQuery { query: None }),
        None
    );
    let query = RepoMetadataQuery::FilesNamed { names: Vec::new() };
    assert_eq!(
        proto_to_repo_metadata_query(&repo_metadata_query_to_proto(query.clone())),
        Some(query)
    );
}

#[test]
fn snapshot_walks_level_by_level_and_leaves_out_empty_directories() {
    let entries = file_tree_entry_to_snapshot_proto(&tree());
    assert_eq!(
        entries,
        vec![
            proto::RepoMetadataEntryUpdate {
                parent_path_to_replace: "/repo".to_string(),
                subtree_metadata: vec![
                    wire_directory("/repo/a", true),
                    wire_directory("/repo/b", false),
                    wire_file("/repo/README.md", Some("md")),
                ],
            },
            proto::RepoMetadataEntryUpdate {
                parent_path_to_replace: "/repo/a".to_string(),
                subtree_metadata: vec![wire_directory("/repo/a/deep", true)],
            },
            proto::RepoMetadataEntryUpdate {
                parent_path_to_replace: "/repo/a/deep".to_string(),
                subtree_metadata: vec![wire_file("/repo/a/deep/x", None)],
            },
        ]
    );
    assert!(
        file_tree_entry_to_snapshot_proto(&FileTreeEntry::new_for_directory(path("/repo")))
            .is_empty()
    );
}

#[test]
fn snapshot_is_read_back_as_the_listings_of_the_tree() {
    let update = proto_snapshot_to_update(&proto::RepoMetadataSnapshot {
        repo_path: "/repo".to_string(),
        entries: file_tree_entry_to_snapshot_proto(&tree()),
    })
    .unwrap();
    assert_eq!(
        update,
        RepoMetadataUpdate {
            repo_path: path("/repo"),
            remove_entries: Vec::new(),
            update_entries: vec![
                FileTreeEntryUpdate {
                    parent_path_to_replace: path("/repo"),
                    subtree_metadata: vec![
                        RepoNodeMetadata::Directory(directory("/repo/a", true)),
                        RepoNodeMetadata::Directory(directory("/repo/b", false)),
                        RepoNodeMetadata::File(file("/repo/README.md", Some("md"))),
                    ],
                },
                FileTreeEntryUpdate {
                    parent_path_to_replace: path("/repo/a"),
                    subtree_metadata: vec![RepoNodeMetadata::Directory(directory(
                        "/repo/a/deep",
                        true
                    ))],
                },
                FileTreeEntryUpdate {
                    parent_path_to_replace: path("/repo/a/deep"),
                    subtree_metadata: vec![RepoNodeMetadata::File(file("/repo/a/deep/x", None))],
                },
            ],
        }
    );
}

#[test]
fn children_of_one_directory_are_serialized_alone() {
    let entries = file_tree_children_to_proto_entries(&tree(), &path("/repo/a"));
    assert_eq!(
        entries,
        vec![proto::RepoMetadataEntryUpdate {
            parent_path_to_replace: "/repo/a".to_string(),
            subtree_metadata: vec![wire_directory("/repo/a/deep", true)],
        }]
    );
    let update = proto_load_repo_metadata_directory_response_to_update(
        &proto::LoadRepoMetadataDirectoryResponse {
            repo_path: "/repo".to_string(),
            entries,
        },
    )
    .unwrap();
    assert_eq!(update.repo_path, path("/repo"));
    assert!(update.remove_entries.is_empty());
    assert_eq!(update.update_entries.len(), 1);
}

#[test]
fn update_round_trips_through_proto() {
    let update = RepoMetadataUpdate {
        repo_path: path("/repo"),
        remove_entries: vec![path("/repo/old"), path("C:\\other")],
        update_entries: vec![FileTreeEntryUpdate {
            parent_path_to_replace: path("/repo/a"),
            subtree_metadata: vec![
                RepoNodeMetadata::File(file("/repo/a/x.rs", Some("rs"))),
                RepoNodeMetadata::Directory(directory("/repo/a/b", false)),
            ],
        }],
    };
    let push = proto::RepoMetadataUpdatePush::from(&update);
    assert_eq!(push.remove_entries, vec!["/repo/old", "C:\\other"]);
    assert_eq!(proto_to_repo_metadata_update(&push), Some(update));
}

#[test]
fn unreadable_parts_of_an_update_are_skipped() {
    let push = |repo_path: &str| proto::RepoMetadataUpdatePush {
        repo_path: repo_path.to_string(),
        remove_entries: vec!["relative".to_string(), "/repo/old".to_string()],
        update_entries: vec![
            proto::RepoMetadataEntryUpdate {
                parent_path_to_replace: "relative".to_string(),
                subtree_metadata: vec![wire_file("/repo/x", None)],
            },
            proto::RepoMetadataEntryUpdate {
                parent_path_to_replace: "/repo".to_string(),
                subtree_metadata: vec![
                    proto::RepoNodeMetadata { node: None },
                    wire_file("x", None),
                    wire_directory("", true),
                    wire_file("/repo/y", None),
                ],
            },
        ],
    };
    let update = proto_to_repo_metadata_update(&push("/repo")).unwrap();
    assert_eq!(update.remove_entries, vec![path("/repo/old")]);
    assert_eq!(skipped_removals(&push("/repo")), vec!["relative"]);
    assert_eq!(
        update.update_entries,
        vec![FileTreeEntryUpdate {
            parent_path_to_replace: path("/repo"),
            subtree_metadata: vec![RepoNodeMetadata::File(file("/repo/y", None))],
        }]
    );
    assert_eq!(proto_to_repo_metadata_update(&push("repo")), None);
    assert_eq!(
        proto_snapshot_to_update(&proto::RepoMetadataSnapshot {
            repo_path: "repo".to_string(),
            entries: Vec::new(),
        }),
        None
    );
    assert_eq!(
        proto_load_repo_metadata_directory_response_to_update(
            &proto::LoadRepoMetadataDirectoryResponse {
                repo_path: "".to_string(),
                entries: Vec::new(),
            }
        ),
        None
    );
}

#[test]
fn one_unreadable_match_spoils_a_complete_answer() {
    let response = |status, matches| proto::QueryRepoMetadataResponse {
        matches,
        status,
        max_entries_scanned: 3,
    };
    assert_eq!(
        proto_query_repo_metadata_response_to_contents(&response(
            1,
            vec![wire_file("/repo/x", None), wire_file("x", None)]
        )),
        Err(RepoContentsQueryError::QueryFailed {
            message: "remote metadata query returned an invalid match".to_string()
        })
    );
    for status in [0, 3, -1] {
        assert_eq!(
            proto_query_repo_metadata_response_to_contents(&response(status, Vec::new())),
            Err(RepoContentsQueryError::QueryFailed {
                message: "remote metadata query returned an unspecified status".to_string()
            })
        );
    }
    assert_eq!(
        proto_query_repo_metadata_response_to_contents(&response(2, vec![wire_file("x", None)])),
        Err(RepoContentsQueryError::QueryBudgetExceeded { limit: 3 })
    );
    assert_eq!(
        proto_query_repo_metadata_response_to_contents(&response(
            1,
            vec![wire_directory("/repo/d", true)]
        )),
        Ok(vec![OwnedRepoContent::Directory {
            path: path("/repo/d"),
            ignored: false,
            loaded: true,
        }])
    );
}

#[test]
fn listed_paths_without_a_node_are_left_out_of_messages() {
    let tree = FileTreeEntry::new_for_directory(path("/repo"));
    let tree = tree
        .insert_path(&path("/repo"), path("/repo/unknown"))
        .unwrap();
    assert!(file_tree_entry_to_snapshot_proto(&tree).is_empty());
    let entries = file_tree_children_to_proto_entries(&tree, &path("/repo"));
    assert_eq!(entries.len(), 1);
    assert!(entries[0].subtree_metadata.is_empty());

    let tree = tree
        .insert(
            &path("/repo"),
            FileTreeEntryState::File(file("/repo/known", None)),
        )
        .unwrap();
    let entries = file_tree_entry_to_snapshot_proto(&tree);
    assert_eq!(entries.len(), 1);
    assert_eq!(
        entries[0].subtree_metadata,
        vec![wire_file("/repo/known", None)]
    );
}

#[test]
fn loaded_directory_arrives_as_it_was_sent() {
    let there = tree();
    let response = proto::LoadRepoMetadataDirectoryResponse {
        repo_path: "/repo".to_string(),
        entries: file_tree_children_to_proto_entries(&there, &path("/repo")),
    };
    let update = proto_load_repo_metadata_directory_response_to_update(&response).unwrap();
    let here = FileTreeEntry::new(directory("/repo", false));
    let here = here
        .insert(
            &path("/repo"),
            FileTreeEntryState::File(file("/repo/stale", None)),
        )
        .unwrap();
    let here = here.load_directories(&update.update_entries);
    assert_eq!(
        file_tree_children_to_proto_entries(&here, &path("/repo")),
        response.entries
    );
    assert_eq!(
        here.get(&path("/repo")),
        Some(&FileTreeEntryState::Directory(directory("/repo", true)))
    );
    assert!(!here.contains(&path("/repo/stale")));
}
