use repo_metadata::event::{
    RemoteRepositoryMetadataEvent, RepoMetadataEvent, RepositoryMetadataEvent,
};
use repo_metadata::identifier::{HostId, RemoteRepositoryIdentifier, RepositoryIdentifier};
use repo_metadata::model::{
    FileTreeState, IndexedRepoState, RepoContentsPlan, RepoMetadataError, RepoMetadataModel,
    MAX_REPO_CONTENTS_RESULTS,
};
use repo_metadata::node::{
    DirectoryNodeMetadata, FileNodeMetadata, FileTreeEntryState, OwnedRepoContent,
    RepoNodeMetadata,
};
use repo_metadata::path::StandardizedPath;
use repo_metadata::query::{
    GetContentsArgs, RepoContentsQueryBudget, RepoContentsQueryError, RepoMetadataQuery,
};
use repo_metadata::tree::FileTreeEntry;
use repo_metadata::update::{FileTreeEntryUpdate, MetadataUpdateType, RepoMetadataUpdate};

fn path(text: &str) -> StandardizedPath {
    StandardizedPath::try_new(text).unwrap()
}

fn root(text: &str, loaded: bool) -> FileTreeEntry {
    FileTreeEntry::new(DirectoryNodeMetadata {
        path: path(text),
        ignored: false,
        loaded,
    })
}

fn with_directory(tree: FileTreeEntry, parent: &str, text: &str, loaded: bool) -> FileTreeEntry {
    tree.insert(
        &path(parent),
        FileTreeEntryState::Directory(DirectoryNodeMetadata {
            path: path(text),
            ignored: false,
            loaded,
        }),
    )
    .unwrap()
}

fn with_file(tree: FileTreeEntry, parent: &str, text: &str, ignored: bool) -> FileTreeEntry {
    let path = path(text);
    let extension = path.extension().map(|extension| extension.to_string());
    tree.insert(
        &StandardizedPath::try_new(parent).unwrap(),
        FileTreeEntryState::File(FileNodeMetadata {
            path,
            extension,
            ignored,
        }),
    )
    .unwrap()
}

fn indexed(tree: FileTreeEntry) -> IndexedRepoState {
    IndexedRepoState::Indexed(FileTreeState::new(tree))
}

fn remote(host: &str, text: &str) -> RemoteRepositoryIdentifier {
    RemoteRepositoryIdentifier::new(HostId::new(host.to_string()), path(text))
}

fn rule_query() -> RepoMetadataQuery {
    RepoMetadataQuery::FilesNamed {
        names: vec!["WARP.md".to_string()],
    }
}

fn skill_query() -> RepoMetadataQuery {
    RepoMetadataQuery::ProjectSkillFiles {
        provider_paths: vec![".agents/skills".to_string()],
    }
}

/// Carries out a plan with a stand-in for the provider of remote queries.
fn answer(
    plan: RepoContentsPlan,
    provider: impl FnOnce(
        RemoteRepositoryIdentifier,
        RepoMetadataQuery,
        RepoContentsQueryBudget,
    ) -> Result<Vec<OwnedRepoContent>, RepoContentsQueryError>,
) -> Result<Vec<OwnedRepoContent>, RepoContentsQueryError> {
    match plan {
        RepoContentsPlan::Ready(answer) => answer,
        RepoContentsPlan::AskRemote { id, query, budget } => provider(id, query, budget),
        RepoContentsPlan::ScanLocal { .. } => panic!("no local repository was asked about"),
    }
}

fn holds_file(contents: &[OwnedRepoContent], wanted: &StandardizedPath) -> bool {
    contents.iter().any(
        |content| matches!(content, OwnedRepoContent::File { path, .. } if path == wanted),
    )
}

#[test]
fn authoritative_remote_query_returns_matches_without_materializing_tree() {
    let mut model = RepoMetadataModel::new();
    let source_directory = path("/repo/src");
    let stale_path = path("/repo/src/stale.md");
    let match_path = path("/repo/src/deep/WARP.md");
    let remote_id = remote("host", "/repo");
    let id = RepositoryIdentifier::Remote(remote_id.clone());
    let tree = with_directory(root("/repo", true), "/repo", "/repo/src", false);
    let tree = with_file(tree, "/repo/src", "/repo/src/stale.md", false);
    model.set_repository_state(id.clone(), indexed(tree));

    let plan = model.get_repo_contents(
        id.clone(),
        rule_query(),
        RepoContentsQueryBudget::default(),
        true,
    );
    let contents = answer(plan, |requested_id, query, budget| {
        assert_eq!(requested_id, remote_id);
        assert_eq!(query, rule_query());
        assert_eq!(budget, RepoContentsQueryBudget::default());
        Ok(vec![OwnedRepoContent::File {
            path: match_path.clone(),
            extension: Some("md".to_string()),
            ignored: false,
        }])
    })
    .unwrap();

    assert!(holds_file(&contents, &match_path));
    let state = model.get_repository(&id).unwrap();
    assert!(matches!(
        state.entry.get(&source_directory),
        Some(FileTreeEntryState::Directory(directory)) if !directory.loaded
    ));
    assert!(state.entry.contains(&stale_path));
    assert!(!state.entry.contains(&match_path));
}

#[test]
fn fully_loaded_remote_query_uses_loaded_tree_without_remote_provider() {
    let mut model = RepoMetadataModel::new();
    let match_path = path("/repo/WARP.md");
    let id = RepositoryIdentifier::Remote(remote("host", "/repo"));
    let tree = with_file(root("/repo", true), "/repo", "/repo/WARP.md", false);
    model.set_repository_state(id.clone(), indexed(tree));

    let plan = model.get_repo_contents(
        id,
        rule_query(),
        RepoContentsQueryBudget::default(),
        true,
    );
    let mut called = false;
    let contents = answer(plan, |_, _, _| {
        called = true;
        Ok(Vec::new())
    })
    .unwrap();

    assert!(!called);
    assert!(holds_file(&contents, &match_path));
}

#[test]
fn fully_loaded_remote_project_skill_query_uses_remote_provider() {
    let mut model = RepoMetadataModel::new();
    let symlink_skill_path = path("/repo/.agents/skills/linked/SKILL.md");
    let remote_id = remote("host", "/repo");
    let id = RepositoryIdentifier::Remote(remote_id.clone());
    model.set_repository_state(id.clone(), indexed(root("/repo", true)));

    let plan = model.get_repo_contents(
        id,
        skill_query(),
        RepoContentsQueryBudget::default(),
        true,
    );
    let mut called = false;
    let contents = answer(plan, |requested_id, query, _| {
        assert_eq!(requested_id, remote_id);
        assert_eq!(query, skill_query());
        called = true;
        Ok(vec![OwnedRepoContent::File {
            extension: Some("md".to_string()),
            path: symlink_skill_path.clone(),
            ignored: false,
        }])
    })
    .unwrap();

    assert!(called);
    assert!(holds_file(&contents, &symlink_skill_path));
}

#[test]
fn fully_loaded_remote_query_propagates_loaded_result_limit_failure() {
    let mut model = RepoMetadataModel::new();
    let id = RepositoryIdentifier::Remote(remote("host", "/repo"));
    let mut tree = root("/repo", true);
    for index in 0..=100 {
        tree = with_file(tree, "/repo", &format!("/repo/path-{index}/WARP.md"), false);
    }
    model.set_repository_state(id.clone(), indexed(tree));

    let plan = model.get_repo_contents(
        id,
        rule_query(),
        RepoContentsQueryBudget::default(),
        false,
    );

    assert!(matches!(
        answer(plan, |_, _, _| Ok(Vec::new())),
        Err(RepoContentsQueryError::QueryFailed { message })
            if message == "Result size exceeded maximum limit of 100"
    ));
}

#[test]
fn as_many_results_as_the_limit_are_returned() {
    let mut model = RepoMetadataModel::new();
    let mut tree = root("/repo", true);
    for index in 1..=MAX_REPO_CONTENTS_RESULTS {
        tree = with_file(tree, "/repo", &format!("/repo/path-{index}/WARP.md"), false);
    }
    model.insert_test_state(path("/repo"), FileTreeState::new(tree));
    let id = RepositoryIdentifier::local(path("/repo"));
    match model.get_repo_contents(id, rule_query(), RepoContentsQueryBudget::default(), false) {
        RepoContentsPlan::Ready(Ok(contents)) => assert_eq!(contents.len(), 100),
        plan => panic!("unexpected {plan:?}"),
    }
}

#[test]
fn shallow_local_tree_is_scanned() {
    let mut model = RepoMetadataModel::new();
    let tree = with_directory(root("/repo", true), "/repo", "/repo/src", false);
    model.insert_test_state(path("/repo"), FileTreeState::new(tree));
    let budget = RepoContentsQueryBudget {
        max_entries_scanned: 0,
    };
    match model.get_repo_contents(
        RepositoryIdentifier::local(path("/repo")),
        rule_query(),
        budget,
        true,
    ) {
        RepoContentsPlan::ScanLocal {
            repo_root,
            query,
            budget: given,
        } => {
            assert_eq!(repo_root, path("/repo"));
            assert_eq!(query, rule_query());
            assert_eq!(given, budget);
        }
        plan => panic!("unexpected {plan:?}"),
    }
}

#[test]
fn fully_loaded_local_skill_query_is_scanned() {
    let mut model = RepoMetadataModel::new();
    let tree = with_directory(root("/repo", true), "/repo", "/repo/.agents", true);
    let tree = with_directory(tree, "/repo/.agents", "/repo/.agents/skills", true);
    model.insert_test_state(path("/repo"), FileTreeState::new(tree));
    assert!(matches!(
        model.get_repo_contents(
            RepositoryIdentifier::local(path("/repo")),
            skill_query(),
            RepoContentsQueryBudget::default(),
            false,
        ),
        RepoContentsPlan::ScanLocal { .. }
    ));
}

#[test]
fn remote_query_without_a_provider_is_unavailable() {
    let mut model = RepoMetadataModel::new();
    let remote_id = remote("host", "/repo");
    let id = RepositoryIdentifier::Remote(remote_id.clone());
    model.set_repository_state(id.clone(), indexed(root("/repo", false)));
    let plan = model.get_repo_contents(
        id,
        rule_query(),
        RepoContentsQueryBudget::default(),
        false,
    );
    assert_eq!(
        answer(plan, |_, _, _| Ok(Vec::new())),
        Err(RepoContentsQueryError::RemoteQueryUnavailable(remote_id))
    );
}

#[test]
fn repositories_that_are_not_indexed_give_their_own_errors() {
    let mut model = RepoMetadataModel::new();
    let id = RepositoryIdentifier::local(path("/repo"));
    let ask = |model: &RepoMetadataModel| match model.get_repo_contents(
        id.clone(),
        rule_query(),
        RepoContentsQueryBudget::default(),
        true,
    ) {
        RepoContentsPlan::Ready(Err(error)) => error,
        plan => panic!("unexpected {plan:?}"),
    };
    assert_eq!(
        ask(&model),
        RepoContentsQueryError::RepositoryNotFound(id.clone())
    );
    model.set_repository_state(id.clone(), IndexedRepoState::Pending);
    assert_eq!(
        ask(&model),
        RepoContentsQueryError::RepositoryPending(id.clone())
    );
    assert!(!model.has_repository(&id));
    assert!(matches!(
        model.repository_state(&id),
        Some(IndexedRepoState::Pending)
    ));
    model.set_repository_state(
        id.clone(),
        IndexedRepoState::Failed(RepoMetadataError::IndexingFailed {
            message: "disk on fire".to_string(),
        }),
    );
    assert_eq!(
        ask(&model),
        RepoContentsQueryError::RepositoryIndexingFailed {
            id: id.clone(),
            message: "disk on fire".to_string()
        }
    );
    model.set_repository_state(id.clone(), indexed(root("/repo", true)));
    assert!(model.has_repository(&id));
}

#[test]
fn loaded_contents_can_be_restricted() {
    let mut model = RepoMetadataModel::new();
    let id = RepositoryIdentifier::local(path("/repo"));
    let tree = with_directory(root("/repo", true), "/repo", "/repo/src", false);
    let tree = with_file(tree, "/repo", "/repo/a.rs", false);
    let tree = with_file(tree, "/repo/src", "/repo/src/b.rs", true);
    model.insert_test_state(path("/repo"), FileTreeState::new(tree));
    let paths = |args: GetContentsArgs| -> Vec<String> {
        model
            .get_loaded_repo_contents(&id, &args)
            .unwrap()
            .iter()
            .map(|content| match content.to_owned() {
                OwnedRepoContent::File { path, .. } => path.to_string(),
                OwnedRepoContent::Directory { path, .. } => path.to_string(),
            })
            .collect()
    };
    assert_eq!(paths(GetContentsArgs::new(false)), vec!["/repo/a.rs"]);
    assert_eq!(
        paths(GetContentsArgs::new(true)),
        vec!["/repo", "/repo/src", "/repo/a.rs"]
    );
    assert_eq!(
        paths(GetContentsArgs::new(false).include_ignored()),
        vec!["/repo/a.rs", "/repo/src/b.rs"]
    );
    assert_eq!(
        paths(
            GetContentsArgs::new(true)
                .include_ignored()
                .with_filter(RepoMetadataQuery::FilesNamed {
                    names: vec!["b.rs".to_string()]
                })
        ),
        vec!["/repo/src/b.rs"]
    );
    assert_eq!(
        model
            .get_loaded_repo_contents(
                &RepositoryIdentifier::local(path("/other")),
                &GetContentsArgs::new(true)
            )
            .map(|contents| contents.len()),
        Err(RepoMetadataError::RepositoryNotFound)
    );
}

#[test]
fn local_and_remote_repositories_at_one_path_are_apart() {
    let mut model = RepoMetadataModel::new();
    let local = RepositoryIdentifier::local(path("/repo"));
    let here = RepositoryIdentifier::Remote(remote("here", "/repo"));
    let there = RepositoryIdentifier::Remote(remote("there", "/repo"));
    for id in [&local, &here, &there] {
        model.set_repository_state(id.clone(), indexed(root("/repo", true)));
    }
    model.set_repository_state(
        RepositoryIdentifier::Remote(remote("here", "/second")),
        IndexedRepoState::Pending,
    );
    assert_eq!(model.local_repository_ids(), vec![local.clone()]);
    assert_eq!(model.remote_repository_ids().len(), 3);
    model.remove_remote_repositories_for_host(&HostId::new("here".to_string()));
    assert!(model.has_repository(&local));
    assert!(!model.has_repository(&here));
    assert!(model.has_repository(&there));
    assert_eq!(model.remote_repository_ids(), vec![remote("there", "/repo")]);
    assert_eq!(model.remove_repository(&there), Ok(()));
    assert_eq!(model.remove_repository(&there), Ok(()));
    assert!(model.remote_repository_ids().is_empty());
    assert_eq!(model.remove_repository(&local), Ok(()));
    assert_eq!(
        model.remove_repository(&local),
        Err(RepoMetadataError::RepositoryNotFound)
    );
    assert!(model.repository_state(&local).is_none());
}

#[test]
fn paths_are_found_in_the_innermost_repository() {
    let mut model = RepoMetadataModel::new();
    assert_eq!(model.find_repository_for_path(&path("/repo/x")), None);
    for root in ["/repo/a", "/repo", "/repo/a/b"] {
        model.set_repository_state(
            RepositoryIdentifier::local(path(root)),
            IndexedRepoState::Pending,
        );
    }
    model.set_repository_state(
        RepositoryIdentifier::Remote(remote("h", "/elsewhere")),
        IndexedRepoState::Pending,
    );
    let root_of = |text: &str| model.find_repository_for_path(&path(text));
    assert_eq!(root_of("/repo/x"), Some(path("/repo")));
    assert_eq!(root_of("/repo"), Some(path("/repo")));
    assert_eq!(root_of("/repo/a/x"), Some(path("/repo/a")));
    assert_eq!(root_of("/repo/a/b/c/d"), Some(path("/repo/a/b")));
    assert_eq!(root_of("/repository"), None);
    assert_eq!(root_of("/elsewhere/x"), None);
}

#[test]
fn incremental_updates_are_reported_on_request_only() {
    assert!(!RepoMetadataModel::new().emits_incremental_updates());
    assert!(RepoMetadataModel::new_with_incremental_updates().emits_incremental_updates());
}

#[test]
fn events_are_forwarded_under_the_unified_identifier() {
    let local = RepositoryIdentifier::local(path("/a"));
    let forward = |event| RepoMetadataModel::forward_local_event(&event);
    assert!(matches!(
        forward(RepositoryMetadataEvent::RepositoryUpdated { path: path("/a") }),
        RepoMetadataEvent::RepositoryUpdated { id } if id == local
    ));
    assert!(matches!(
        forward(RepositoryMetadataEvent::RepositoryRemoved { path: path("/a") }),
        RepoMetadataEvent::RepositoryRemoved { id } if id == local
    ));
    assert!(matches!(
        forward(RepositoryMetadataEvent::FileTreeUpdated {
            paths: vec![path("/b"), path("/a")]
        }),
        RepoMetadataEvent::FileTreeUpdated { ids }
            if ids == vec![RepositoryIdentifier::local(path("/b")), local.clone()]
    ));
    assert!(matches!(
        forward(RepositoryMetadataEvent::FileTreeEntryUpdated {
            path: path("/a"),
            update_type: MetadataUpdateType::Replaced
        }),
        RepoMetadataEvent::FileTreeEntryUpdated {
            id,
            update_type: MetadataUpdateType::Replaced
        } if id == local
    ));
    assert!(matches!(
        forward(RepositoryMetadataEvent::UpdatingRepositoryFailed { path: path("/a") }),
        RepoMetadataEvent::UpdatingRepositoryFailed { id } if id == local
    ));
    let update = || RepoMetadataUpdate {
        repo_path: path("/a"),
        remove_entries: vec![path("/a/b")],
        update_entries: Vec::new(),
    };
    assert!(matches!(
        forward(RepositoryMetadataEvent::IncrementalUpdateReady { update: update() }),
        RepoMetadataEvent::IncrementalUpdateReady { update: sent } if sent == update()
    ));

    let id = || remote("h", "/a");
    let unified = RepositoryIdentifier::Remote(id());
    let forward = |event| RepoMetadataModel::forward_remote_event(&event);
    assert!(matches!(
        forward(RemoteRepositoryMetadataEvent::RepositoryUpdated { id: id() }),
        RepoMetadataEvent::RepositoryUpdated { id } if id == unified
    ));
    assert!(matches!(
        forward(RemoteRepositoryMetadataEvent::RepositoryRemoved { id: id() }),
        RepoMetadataEvent::RepositoryRemoved { id } if id == unified
    ));
    assert!(matches!(
        forward(RemoteRepositoryMetadataEvent::FileTreeUpdated { ids: vec![id()] }),
        RepoMetadataEvent::FileTreeUpdated { ids } if ids == vec![unified.clone()]
    ));
    assert!(matches!(
        forward(RemoteRepositoryMetadataEvent::FileTreeEntryUpdated {
            id: id(),
            update_type: MetadataUpdateType::Incremental(update())
        }),
        RepoMetadataEvent::FileTreeEntryUpdated {
            id,
            update_type: MetadataUpdateType::Incremental(sent)
        } if id == unified && sent == update()
    ));
}

#[test]
fn errors_are_put_into_words() {
    assert_eq!(
        RepoMetadataError::ResultSizeExceeded { limit: 100 }.message(),
        "Result size exceeded maximum limit of 100"
    );
    assert_eq!(
        RepoMetadataError::ResultSizeExceeded { limit: 0 }.message(),
        "Result size exceeded maximum limit of 0"
    );
    assert_eq!(
        RepoMetadataError::ResultSizeExceeded { limit: 9876543210 }.message(),
        "Result size exceeded maximum limit of 9876543210"
    );
    assert_eq!(
        RepoMetadataError::RepositoryNotFound.message(),
        "Repository not found"
    );
}

fn load_response(repo: &str, parent: &str, child: &str) -> RepoMetadataUpdate {
    RepoMetadataUpdate {
        repo_path: path(repo),
        remove_entries: Vec::new(),
        update_entries: vec![FileTreeEntryUpdate {
            parent_path_to_replace: path(parent),
            subtree_metadata: vec![RepoNodeMetadata::File(FileNodeMetadata {
                path: path(child),
                extension: None,
                ignored: false,
            })],
        }],
    }
}

#[test]
fn a_load_response_reaches_the_repository_of_its_host() {
    let mut model = RepoMetadataModel::new();
    let local = RepositoryIdentifier::local(path("/repo"));
    let here = RepositoryIdentifier::Remote(remote("here", "/repo"));
    let there = RepositoryIdentifier::Remote(remote("there", "/repo"));
    for id in [&local, &here, &there] {
        model.set_repository_state(id.clone(), indexed(root("/repo", false)));
    }
    let host = HostId::new("here".to_string());
    let update = load_response("/repo", "/repo", "/repo/WARP.md");
    assert!(matches!(
        model.directory_load_event(&host, &update),
        Some(RepoMetadataEvent::FileTreeEntryUpdated {
            id,
            update_type: MetadataUpdateType::Replaced,
        }) if id == here
    ));
    model.apply_remote_loaded_directory_update(&host, &update);
    let tree_of = |id: &RepositoryIdentifier| match model.repository_state(id) {
        Some(IndexedRepoState::Indexed(state)) => (
            state.entry.child_paths(&path("/repo")),
            state.entry.nodes().len(),
            state.entry.get(&path("/repo")) == root("/repo", true).get(&path("/repo")),
        ),
        _ => panic!("the repository is indexed"),
    };
    assert_eq!(tree_of(&here), (vec![path("/repo/WARP.md")], 2, true));
    assert_eq!(tree_of(&local), (Vec::new(), 1, false));
    assert_eq!(tree_of(&there), (Vec::new(), 1, false));
}

#[test]
fn a_load_response_for_a_repository_without_a_tree_is_dropped() {
    let mut model = RepoMetadataModel::new();
    let pending = RepositoryIdentifier::Remote(remote("here", "/pending"));
    model.set_repository_state(pending.clone(), IndexedRepoState::Pending);
    let host = HostId::new("here".to_string());
    for repo in ["/pending", "/unknown"] {
        let update = load_response(repo, repo, "/pending/x");
        assert!(model.directory_load_event(&host, &update).is_none());
        model.apply_remote_loaded_directory_update(&host, &update);
    }
    assert!(matches!(
        model.repository_state(&pending),
        Some(IndexedRepoState::Pending)
    ));
    assert_eq!(model.remote_repository_ids(), vec![remote("here", "/pending")]);
}

#[test]
fn removals_are_reported_for_what_was_tracked() {
    let mut model = RepoMetadataModel::new();
    let local = RepositoryIdentifier::local(path("/repo"));
    assert!(model.removal_event(&local).is_none());
    model.set_repository_state(local.clone(), IndexedRepoState::Pending);
    for (host, repo) in [("here", "/a"), ("there", "/a"), ("here", "/b")] {
        model.set_repository_state(
            RepositoryIdentifier::Remote(remote(host, repo)),
            IndexedRepoState::Pending,
        );
    }
    assert!(matches!(
        model.removal_event(&local),
        Some(RepoMetadataEvent::RepositoryRemoved { id }) if id == local
    ));
    let removed: Vec<RepositoryIdentifier> = model
        .removal_events_for_host(&HostId::new("here".to_string()))
        .into_iter()
        .map(|event| match event {
            RepoMetadataEvent::RepositoryRemoved { id } => id,
            _ => panic!("only removals are reported"),
        })
        .collect();
    assert_eq!(removed.len(), 2);
    for repo in ["/a", "/b"] {
        assert!(removed.contains(&RepositoryIdentifier::Remote(remote("here", repo))));
    }
    assert!(model
        .removal_events_for_host(&HostId::new("nowhere".to_string()))
        .is_empty());
}
