use repo_metadata::event::RepoMetadataEvent;
use repo_metadata::identifier::{
    HostId, LocalOrRemotePath, RemotePath, RemoteRepositoryIdentifier, RepositoryIdentifier,
};
use repo_metadata::model::{IndexedRepoState, RepoMetadataModel};
use repo_metadata::node::OwnedRepoContent;
use repo_metadata::path::{PathEncoding, StandardizedPath};
use repo_metadata::project_rules::{
    build_project_rules, find_project_rule_files_in_contents, project_rule_query,
    read_local_project_rule_contents, read_project_rule_contents,
    read_remote_project_rule_contents, remote_query_answer, remote_query_host,
    remote_query_request, remote_rule_read_request, Hydration, MetadataProjectRulesModel,
    ReadPlan, RulesAction, PROJECT_RULE_MAX_ENTRIES_SCANNED,
};
use repo_metadata::proto::{Content, FileContextProto, Query, QueryRepoMetadataResponse};
use repo_metadata::query::{RepoContentsQueryBudget, RepoContentsQueryError, RepoMetadataQuery};
use repo_metadata::repo_metadata_proto::query_repo_metadata_response_to_proto;
use repo_metadata::update::MetadataUpdateType;

fn path(text: &str) -> StandardizedPath {
    StandardizedPath::try_new(text).unwrap()
}

fn remote_rule_path(host_id: &HostId, name: &str) -> LocalOrRemotePath {
    LocalOrRemotePath::Remote(RemotePath::new(
        host_id.clone(),
        path(format!("/repo/{name}").as_str()),
    ))
}

fn remote_rule_file_context(path: &LocalOrRemotePath, content: &str) -> FileContextProto {
    let LocalOrRemotePath::Remote(remote) = path else {
        panic!("Expected a remote rule path");
    };

    FileContextProto {
        file_name: remote.path.as_str().to_string(),
        content: Some(Content::TextContent(content.to_string())),
        line_range_start: None,
        line_range_end: None,
        last_modified_epoch_millis: None,
        line_count: content.lines().count() as u32,
    }
}

fn rule_file(text: &str) -> OwnedRepoContent {
    OwnedRepoContent::File {
        path: path(text),
        extension: Some("md".to_string()),
        ignored: false,
    }
}

fn local_id(text: &str) -> RepositoryIdentifier {
    RepositoryIdentifier::local(path(text))
}

fn remote_id(host: &str, text: &str) -> RepositoryIdentifier {
    RepositoryIdentifier::Remote(RemoteRepositoryIdentifier::new(
        HostId::new(host.to_string()),
        path(text),
    ))
}

#[test]
fn remote_rule_contents_match_reordered_responses_by_path() {
    let host = HostId::new("test-host".to_string());
    let first_path = remote_rule_path(&host, "WARP.md");
    let second_path = remote_rule_path(&host, "nested/AGENTS.md");

    let rules = build_project_rules(read_remote_project_rule_contents(
        vec![first_path.clone(), second_path.clone()],
        vec![
            remote_rule_file_context(&second_path, "second rules"),
            remote_rule_file_context(&first_path, "first rules"),
        ],
    ));

    assert_eq!(rules.len(), 2);
    assert_eq!(rules[0].path, first_path);
    assert_eq!(rules[0].content, "first rules");
    assert_eq!(rules[1].path, second_path);
    assert_eq!(rules[1].content, "second rules");
}

#[test]
fn remote_rule_contents_keep_paths_aligned_after_missing_reads() {
    let host = HostId::new("test-host".to_string());
    let missing_path = remote_rule_path(&host, "WARP.md");
    let present_path = remote_rule_path(&host, "nested/AGENTS.md");

    let rules = build_project_rules(read_remote_project_rule_contents(
        vec![missing_path, present_path.clone()],
        vec![remote_rule_file_context(&present_path, "present rules")],
    ));

    assert_eq!(rules.len(), 1);
    assert_eq!(rules[0].path, present_path);
    assert_eq!(rules[0].content, "present rules");
}

#[test]
fn remote_rule_read_request_preserves_discovered_paths() {
    let host = HostId::new("test-host".to_string());
    let first_path = remote_rule_path(&host, "WARP.md");
    let second_path = remote_rule_path(&host, "nested/AGENTS.md");

    let request = remote_rule_read_request(&[first_path.clone(), second_path.clone()]);

    assert_eq!(request.max_file_bytes, None);
    assert_eq!(request.max_batch_bytes, None);
    assert_eq!(request.files.len(), 2);
    let LocalOrRemotePath::Remote(first_remote) = first_path else {
        panic!("Expected a remote rule path");
    };
    let LocalOrRemotePath::Remote(second_remote) = second_path else {
        panic!("Expected a remote rule path");
    };
    assert_eq!(request.files[0].path, first_remote.path.as_str());
    assert_eq!(request.files[1].path, second_remote.path.as_str());
}

#[test]
fn project_rule_query_requests_supported_rule_file_names() {
    assert_eq!(
        project_rule_query(),
        RepoMetadataQuery::FilesNamed {
            names: vec!["WARP.md".to_string(), "AGENTS.md".to_string()],
        }
    );
}

#[test]
fn remote_discovered_matches_preserve_host_qualified_paths() {
    let host = HostId::new("test-host".to_string());
    let repo_id = RepositoryIdentifier::Remote(RemoteRepositoryIdentifier::new(
        host.clone(),
        StandardizedPath::try_new("/repo").unwrap(),
    ));
    let path = StandardizedPath::try_new("/repo/nested/WARP.md").unwrap();

    let rule_paths = find_project_rule_files_in_contents(
        &repo_id,
        vec![OwnedRepoContent::File {
            path: path.clone(),
            extension: Some("md".to_string()),
            ignored: false,
        }],
        PathEncoding::Unix,
    );

    assert_eq!(
        rule_paths,
        vec![LocalOrRemotePath::Remote(RemotePath::new(host, path))]
    );
}

#[test]
fn local_reads_feed_the_rule_builder() {
    let host = HostId::new("h".to_string());
    let first = LocalOrRemotePath::Local("/repo/WARP.md".to_string());
    let second = LocalOrRemotePath::Local("/repo/AGENTS.md".to_string());
    let unreadable = LocalOrRemotePath::Local("/repo/x/AGENTS.md".to_string());
    let rules = build_project_rules(read_local_project_rule_contents(vec![
        (first.clone(), Some("first local rules".to_string())),
        (unreadable, None),
        (
            remote_rule_path(&host, "WARP.md"),
            Some("elsewhere".to_string()),
        ),
        (second.clone(), Some("second local rules".to_string())),
    ]));
    assert_eq!(rules.len(), 2);
    assert_eq!(rules[0].path, first);
    assert_eq!(rules[0].content, "first local rules");
    assert_eq!(rules[1].path, second);
    assert_eq!(rules[1].content, "second local rules");
}

#[test]
fn local_discovered_matches_are_written_for_this_machine() {
    let contents = || {
        vec![
            OwnedRepoContent::Directory {
                path: path("/repo/AGENTS.md"),
                ignored: false,
                loaded: true,
            },
            rule_file("/repo/WARP.md"),
            rule_file("C:\\repo\\WARP.md"),
        ]
    };
    let id = local_id("/repo");
    assert_eq!(
        find_project_rule_files_in_contents(&id, contents(), PathEncoding::Unix),
        vec![LocalOrRemotePath::Local("/repo/WARP.md".to_string())]
    );
    assert_eq!(
        find_project_rule_files_in_contents(&id, contents(), PathEncoding::Windows),
        vec![LocalOrRemotePath::Local("C:\\repo\\WARP.md".to_string())]
    );
}

#[test]
fn the_last_text_of_a_file_counts_and_binary_content_does_not() {
    let host = HostId::new("h".to_string());
    let rule = remote_rule_path(&host, "WARP.md");
    let mut binary = remote_rule_file_context(&rule, "");
    binary.content = Some(Content::BinaryContent(vec![1, 2]));
    let mut missing = remote_rule_file_context(&rule, "");
    missing.content = None;
    let contents = read_remote_project_rule_contents(
        vec![
            LocalOrRemotePath::Local("/repo/WARP.md".to_string()),
            rule.clone(),
        ],
        vec![
            remote_rule_file_context(&rule, "old"),
            remote_rule_file_context(&rule, "new"),
            binary,
            missing,
        ],
    );
    assert_eq!(contents, vec![(rule, "new".to_string())]);
}

#[test]
fn rules_are_read_as_the_first_of_them_is() {
    let host = HostId::new("h".to_string());
    let remote = remote_rule_path(&host, "WARP.md");
    let local = LocalOrRemotePath::Local("/repo/WARP.md".to_string());
    assert!(matches!(
        read_project_rule_contents(Vec::new()),
        ReadPlan::Nothing
    ));
    match read_project_rule_contents(vec![local.clone(), remote.clone()]) {
        ReadPlan::Local { rule_paths } => assert_eq!(rule_paths.len(), 2),
        plan => panic!("unexpected {plan:?}"),
    }
    match read_project_rule_contents(vec![remote.clone(), local.clone()]) {
        ReadPlan::Remote {
            host_id,
            request,
            rule_paths,
        } => {
            assert_eq!(host_id, host);
            assert_eq!(request.files.len(), 1);
            assert_eq!(request.files[0].path, "/repo/WARP.md");
            assert!(request.files[0].line_ranges.is_empty());
            assert_eq!(rule_paths, vec![remote, local]);
        }
        plan => panic!("unexpected {plan:?}"),
    }
}

#[test]
fn a_newer_search_outdates_the_older_one() {
    let mut rules = MetadataProjectRulesModel::empty();
    let id = local_id("/repo");
    let root = LocalOrRemotePath::Local("/repo".to_string());
    let first = rules
        .refresh_project_rules_for_repo(&id, PathEncoding::Unix)
        .unwrap();
    let second = rules
        .refresh_project_rules_for_repo(&id, PathEncoding::Unix)
        .unwrap();
    assert_eq!((first.generation, second.generation), (1, 2));
    assert_eq!(first.root_path, root);
    assert_eq!(first.query, project_rule_query());
    assert_eq!(
        first.budget.max_entries_scanned,
        PROJECT_RULE_MAX_ENTRIES_SCANNED
    );
    assert_eq!(PROJECT_RULE_MAX_ENTRIES_SCANNED, 100_000);
    assert!(matches!(
        rules.hydrate_discovered_project_rules_if_current(
            &id,
            1,
            root.clone(),
            vec![rule_file("/repo/WARP.md")],
            PathEncoding::Unix
        ),
        Hydration::Outdated
    ));
    match rules.hydrate_discovered_project_rules_if_current(
        &id,
        2,
        root.clone(),
        vec![rule_file("/repo/WARP.md")],
        PathEncoding::Unix,
    ) {
        Hydration::Read { rule_paths } => assert_eq!(
            rule_paths,
            vec![LocalOrRemotePath::Local("/repo/WARP.md".to_string())]
        ),
        hydration => panic!("unexpected {hydration:?}"),
    }
    match rules.hydrate_discovered_project_rules_if_current(
        &id,
        2,
        root.clone(),
        Vec::new(),
        PathEncoding::Unix,
    ) {
        Hydration::Replace(replacement) => {
            assert_eq!(replacement.root_path, root);
            assert!(replacement.rules.is_empty());
        }
        hydration => panic!("unexpected {hydration:?}"),
    }
    let built = || {
        build_project_rules(vec![(
            LocalOrRemotePath::Local("/repo/WARP.md".to_string()),
            "text".to_string(),
        )])
    };
    assert!(rules
        .apply_project_rules_from_metadata_if_current(&id, 1, root.clone(), built())
        .is_none());
    let replacement = rules
        .apply_project_rules_from_metadata_if_current(&id, 2, root.clone(), built())
        .unwrap();
    assert_eq!(replacement.root_path, root);
    assert_eq!(replacement.rules, built());
}

#[test]
fn removal_outdates_searches_for_good() {
    let mut rules = MetadataProjectRulesModel::empty();
    let id = local_id("/repo");
    let other = remote_id("host", "/repo");
    let first = rules.advance_refresh_generation(&id);
    let of_other = rules.advance_refresh_generation(&other);
    assert_eq!(
        rules.clear_project_rules_for_removed_repository(&id, PathEncoding::Unix),
        Some(LocalOrRemotePath::Local("/repo".to_string()))
    );
    assert!(!rules.is_current(&id, first));
    let again = rules.advance_refresh_generation(&id);
    assert!(!rules.is_current(&id, first));
    assert!(rules.is_current(&id, again));
    assert!(rules.is_current(&other, of_other));
    assert_eq!(rules.searches_started(), 3);
}

#[test]
fn unreachable_repositories_count_but_are_not_searched() {
    let mut rules = MetadataProjectRulesModel::empty();
    let id = local_id("C:\\repo");
    assert!(rules
        .refresh_project_rules_for_repo(&id, PathEncoding::Unix)
        .is_none());
    assert!(rules.is_current(&id, 1));
    assert_eq!(
        rules.clear_project_rules_for_removed_repository(&id, PathEncoding::Unix),
        None
    );
    assert!(!rules.is_current(&id, 1));
}

#[test]
fn events_lead_to_searches_in_order() {
    let mut model = RepoMetadataModel::new();
    for id in [remote_id("h", "/c"), local_id("/a"), local_id("C:\\b")] {
        model.set_repository_state(id, IndexedRepoState::Pending);
    }
    assert_eq!(
        model.repository_ids(),
        vec![local_id("/a"), local_id("C:\\b"), remote_id("h", "/c")]
    );
    let (mut rules, actions) = MetadataProjectRulesModel::new(&model, PathEncoding::Unix);
    let generations: Vec<u64> = actions
        .iter()
        .map(|action| match action {
            RulesAction::Search(search) => search.generation,
            RulesAction::Clear(_) => panic!("nothing was removed"),
        })
        .collect();
    assert_eq!(generations, vec![1, 3]);

    let actions = rules.handle_repo_metadata_event(
        &RepoMetadataEvent::FileTreeUpdated {
            ids: vec![remote_id("h", "/c"), local_id("/a")],
        },
        PathEncoding::Unix,
    );
    assert_eq!(actions.len(), 2);
    match &actions[0] {
        RulesAction::Search(search) => {
            assert_eq!(search.generation, 4);
            assert_eq!(search.repo_id, remote_id("h", "/c"));
        }
        RulesAction::Clear(_) => panic!("nothing was removed"),
    }
    assert!(!rules.is_current(&local_id("/a"), 1));
    assert!(rules.is_current(&local_id("/a"), 5));

    let actions = rules.handle_repo_metadata_event(
        &RepoMetadataEvent::FileTreeEntryUpdated {
            id: local_id("/a"),
            update_type: MetadataUpdateType::Replaced,
        },
        PathEncoding::Unix,
    );
    assert_eq!(actions.len(), 1);
    let actions = rules.handle_repo_metadata_event(
        &RepoMetadataEvent::RepositoryUpdated { id: local_id("/a") },
        PathEncoding::Unix,
    );
    assert_eq!(actions.len(), 1);
    assert_eq!(rules.searches_started(), 7);

    let actions = rules.handle_repo_metadata_event(
        &RepoMetadataEvent::UpdatingRepositoryFailed { id: local_id("/a") },
        PathEncoding::Unix,
    );
    assert!(actions.is_empty());
    assert!(rules.is_current(&local_id("/a"), 7));

    let actions = rules.handle_repo_metadata_event(
        &RepoMetadataEvent::RepositoryRemoved { id: local_id("/a") },
        PathEncoding::Unix,
    );
    assert_eq!(actions.len(), 1);
    assert!(matches!(
        &actions[0],
        RulesAction::Clear(LocalOrRemotePath::Local(root)) if root == "/a"
    ));
    assert!(!rules.is_current(&local_id("/a"), 7));
}

#[test]
fn remote_queries_are_framed_and_answered() {
    let id = RemoteRepositoryIdentifier::new(HostId::new("h".to_string()), path("/repo"));
    let budget = RepoContentsQueryBudget {
        max_entries_scanned: 9,
    };
    let request = remote_query_request(&id, project_rule_query(), budget);
    assert_eq!(request.repo_path, "/repo");
    assert_eq!(request.max_entries_scanned, 9);
    match request.query.query {
        Some(Query::FilesNamed(query)) => assert_eq!(query.names, vec!["WARP.md", "AGENTS.md"]),
        query => panic!("unexpected {query:?}"),
    }
    assert_eq!(remote_query_host(&local_id("/repo")), None);
    assert_eq!(
        remote_query_host(&RepositoryIdentifier::Remote(id)),
        Some(&HostId::new("h".to_string()))
    );

    let matches = vec![rule_file("/repo/WARP.md")];
    let reply = query_repo_metadata_response_to_proto(&matches, budget);
    assert_eq!(remote_query_answer(Ok(reply)), Ok(matches));
    assert_eq!(
        remote_query_answer(Err("connection lost".to_string())),
        Err(RepoContentsQueryError::QueryFailed {
            message: "connection lost".to_string()
        })
    );
    assert!(remote_query_answer(Ok(QueryRepoMetadataResponse {
        matches: Vec::new(),
        status: 0,
        max_entries_scanned: 9,
    }))
    .is_err());
}
