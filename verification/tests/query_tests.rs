use repo_metadata::identifier::{HostId, RemoteRepositoryIdentifier, RepositoryIdentifier};
use repo_metadata::node::{DirectoryNodeMetadata, FileNodeMetadata, RepoContent};
use repo_metadata::path::StandardizedPath;
use repo_metadata::query::{
    get_loaded_query_args, path_has_component_suffix, query_matches_path,
    repo_content_matches_query, GetContentsArgs, RepoContentsQueryBudget, RepoContentsQueryError,
    RepoMetadataQuery,
};

fn path(text: &str) -> StandardizedPath {
    StandardizedPath::try_new(text).unwrap()
}

fn skills(provider_paths: &[&str]) -> RepoMetadataQuery {
    RepoMetadataQuery::ProjectSkillFiles {
        provider_paths: provider_paths.iter().map(|path| path.to_string()).collect(),
    }
}

#[test]
fn suffixes_are_compared_by_whole_components() {
    let skills = path("/repo/.agents/skills");
    assert!(path_has_component_suffix(&skills, ".agents/skills"));
    assert!(path_has_component_suffix(&skills, ".agents\\skills"));
    assert!(path_has_component_suffix(&skills, "/.agents//skills/"));
    assert!(path_has_component_suffix(&skills, "skills"));
    assert!(path_has_component_suffix(&skills, ""));
    assert!(path_has_component_suffix(&skills, "repo/.agents/skills"));
    assert!(!path_has_component_suffix(&skills, "agents/skills"));
    assert!(!path_has_component_suffix(&skills, "x/repo/.agents/skills"));
    assert!(!path_has_component_suffix(&path("/"), "skills"));
    assert!(path_has_component_suffix(&path("C:\\a\\b"), "a/b"));
}

#[test]
fn skill_queries_match_providers_and_skill_files() {
    let query = skills(&[".warp/skills", ".agents/skills"]);
    assert!(query_matches_path(&path("/repo/.agents/skills"), true, &query));
    assert!(!query_matches_path(&path("/repo/.agents/skills"), false, &query));
    assert!(query_matches_path(
        &path("/repo/.agents/skills/demo/SKILL.md"),
        false,
        &query
    ));
    assert!(!query_matches_path(
        &path("/repo/.agents/skills/SKILL.md"),
        false,
        &query
    ));
    assert!(!query_matches_path(
        &path("/repo/.agents/skills/demo/skill.md"),
        false,
        &query
    ));
    assert!(!query_matches_path(&path("/SKILL.md"), false, &skills(&[""])));
    assert!(query_matches_path(&path("/x/SKILL.md"), false, &skills(&[""])));
    assert!(!query_matches_path(&path("/x"), true, &skills(&[])));
}

#[test]
fn name_queries_match_files_of_the_name() {
    let query = RepoMetadataQuery::FilesNamed {
        names: vec!["WARP.md".to_string(), "AGENTS.md".to_string()],
    };
    assert!(query_matches_path(&path("/a/AGENTS.md"), false, &query));
    assert!(!query_matches_path(&path("/a/AGENTS.md"), true, &query));
    assert!(!query_matches_path(&path("/a/AGENTS.mdx"), false, &query));
    assert!(!query_matches_path(&path("/"), false, &query));
}

#[test]
fn loaded_trees_are_asked_for_folders_by_skill_queries_only() {
    let args = get_loaded_query_args(skills(&["a"]));
    assert_eq!(
        args,
        GetContentsArgs {
            include_folders: true,
            include_ignored: true,
            filter: Some(skills(&["a"])),
        }
    );
    let query = RepoMetadataQuery::FilesNamed { names: Vec::new() };
    assert!(!get_loaded_query_args(query).include_folders);
}

#[test]
fn selection_of_nodes() {
    let file = FileNodeMetadata {
        path: path("/r/.agents/skills/x/SKILL.md"),
        extension: Some("md".to_string()),
        ignored: true,
    };
    let directory = DirectoryNodeMetadata {
        path: path("/r/.agents/skills"),
        ignored: false,
        loaded: false,
    };
    let query = skills(&[".agents/skills"]);
    let file = RepoContent::File(&file);
    let directory = RepoContent::Directory(&directory);
    assert!(repo_content_matches_query(&file, &query));
    assert!(repo_content_matches_query(&directory, &query));
    let args = get_loaded_query_args(query);
    assert!(args.selects(&file));
    assert!(args.selects(&directory));
    assert!(!GetContentsArgs::new(true).selects(&file));
    assert!(!GetContentsArgs::new(false).selects(&directory));
}

#[test]
fn default_budget_and_copies_of_errors() {
    assert_eq!(
        RepoContentsQueryBudget::default().max_entries_scanned,
        100_000
    );
    let remote =
        RemoteRepositoryIdentifier::new(HostId::new("h".to_string()), path("/r"));
    let id = RepositoryIdentifier::Remote(remote.clone());
    for error in [
        RepoContentsQueryError::RepositoryNotFound(id.clone()),
        RepoContentsQueryError::RepositoryPending(id.clone()),
        RepoContentsQueryError::RepositoryIndexingFailed {
            id,
            message: "m".to_string(),
        },
        RepoContentsQueryError::RemoteQueryUnavailable(remote),
        RepoContentsQueryError::QueryFailed {
            message: "m".to_string(),
        },
        RepoContentsQueryError::QueryBudgetExceeded { limit: 1 },
    ] {
        assert_eq!(error.clone(), error);
    }
}
