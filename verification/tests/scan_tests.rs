use repo_metadata::node::OwnedRepoContent;
use repo_metadata::path::{PathEncoding, StandardizedPath};
use repo_metadata::query::{RepoContentsQueryBudget, RepoContentsQueryError, RepoMetadataQuery};
use repo_metadata::scan::{
    query_local_repo_contents, LocalScan, ScanStep, WalkEntry, WalkEntryKind,
};

fn path(text: &str) -> StandardizedPath {
    StandardizedPath::try_new(text).unwrap()
}

fn item(text: &str, kind: WalkEntryKind) -> Result<WalkEntry, String> {
    let name = text.rsplit('/').next().unwrap_or("");
    Ok(WalkEntry {
        path: Some(text.to_string()),
        name: name.to_string(),
        kind,
    })
}

fn dir(text: &str) -> Result<WalkEntry, String> {
    item(text, WalkEntryKind::Directory)
}

fn file(text: &str) -> Result<WalkEntry, String> {
    item(text, WalkEntryKind::File)
}

fn link(text: &str, holds_skill_file: bool) -> Result<WalkEntry, String> {
    item(text, WalkEntryKind::LinkedDirectory { holds_skill_file })
}

fn budget(max_entries_scanned: usize) -> RepoContentsQueryBudget {
    RepoContentsQueryBudget {
        max_entries_scanned,
    }
}

fn named(name: &str) -> RepoMetadataQuery {
    RepoMetadataQuery::FilesNamed {
        names: vec![name.to_string()],
    }
}

fn skills() -> RepoMetadataQuery {
    RepoMetadataQuery::ProjectSkillFiles {
        provider_paths: vec![".agents/skills".to_string()],
    }
}

fn scan(
    query: &RepoMetadataQuery,
    limit: usize,
    walk: Vec<Result<WalkEntry, String>>,
) -> Result<Vec<OwnedRepoContent>, RepoContentsQueryError> {
    query_local_repo_contents(
        &path("/repo"),
        query,
        budget(limit),
        PathEncoding::Unix,
        walk,
    )
}

fn found_file(text: &str, extension: Option<&str>) -> OwnedRepoContent {
    OwnedRepoContent::File {
        path: path(text),
        extension: extension.map(|extension| extension.to_string()),
        ignored: false,
    }
}

#[test]
fn local_scan_discovers_nested_matches() {
    let walk = vec![
        dir("/repo"),
        dir("/repo/src"),
        dir("/repo/src/deep"),
        file("/repo/src/deep/WARP.md"),
        file("/repo/src/deep/other.md"),
        dir("/repo/WARP.md"),
    ];
    assert_eq!(
        scan(&named("WARP.md"), 100_000, walk),
        Ok(vec![found_file("/repo/src/deep/WARP.md", Some("md"))])
    );
}

#[test]
fn local_scan_discovers_skills_behind_links() {
    let walk = || {
        vec![
            dir("/repo"),
            link("/repo/linked", true),
            dir("/repo/.agents"),
            dir("/repo/.agents/skills"),
            dir("/repo/.agents/skills/demo"),
            file("/repo/.agents/skills/demo/SKILL.md"),
            file("/repo/.agents/skills/demo/extra/SKILL.md"),
            link("/repo/.agents/skills/linked", true),
            link("/repo/.agents/skills/bare", false),
            item("/repo/.agents/skills/socket", WalkEntryKind::Other),
        ]
    };
    assert_eq!(
        scan(&skills(), 100_000, walk()),
        Ok(vec![
            OwnedRepoContent::Directory {
                path: path("/repo/.agents/skills"),
                ignored: false,
                loaded: false,
            },
            found_file("/repo/.agents/skills/demo/SKILL.md", Some("md")),
            found_file("/repo/.agents/skills/linked/SKILL.md", Some("md")),
        ])
    );
    assert_eq!(
        scan(&named("SKILL.md"), 100_000, walk()),
        Ok(vec![
            found_file("/repo/.agents/skills/demo/SKILL.md", Some("md")),
            found_file("/repo/.agents/skills/demo/extra/SKILL.md", Some("md")),
        ])
    );
}

#[test]
fn local_scan_enforces_its_budget() {
    let walk = || vec![dir("/repo"), dir("/repo/src"), file("/repo/src/WARP.md")];
    assert_eq!(
        scan(&named("WARP.md"), 0, walk()),
        Err(RepoContentsQueryError::QueryBudgetExceeded { limit: 0 })
    );
    assert_eq!(
        scan(&named("WARP.md"), 2, walk()),
        Err(RepoContentsQueryError::QueryBudgetExceeded { limit: 2 })
    );
    assert_eq!(scan(&named("WARP.md"), 3, walk()).unwrap().len(), 1);
    assert_eq!(
        scan(&named("WARP.md"), usize::MAX, walk()),
        scan(&named("WARP.md"), 3, walk())
    );
    assert_eq!(scan(&named("WARP.md"), 0, Vec::new()), Ok(Vec::new()));
}

#[test]
fn git_directories_are_left_out_and_cost_nothing() {
    let git_first = |kind| vec![dir("/repo"), item("/repo/.git", kind), file("/repo/WARP.md")];
    assert_eq!(
        scan(&named("WARP.md"), 2, git_first(WalkEntryKind::Directory))
            .unwrap()
            .len(),
        1
    );
    assert_eq!(
        scan(&named("WARP.md"), 2, git_first(WalkEntryKind::File)),
        Err(RepoContentsQueryError::QueryBudgetExceeded { limit: 2 })
    );
    assert_eq!(
        scan(&named(".git"), 9, git_first(WalkEntryKind::File)),
        Ok(vec![found_file("/repo/.git", None)])
    );
    let started = LocalScan::start(
        &path("/repo"),
        &named("WARP.md"),
        budget(0),
        PathEncoding::Unix,
    );
    let Ok(scan) = started else {
        panic!("the encodings agree");
    };
    match scan.step(dir("/repo/.git")) {
        ScanStep::SkipSubtree(scan) => assert!(scan.finish().is_empty()),
        _ => panic!("expected the subtree to be skipped"),
    }
}

#[test]
fn unreadable_entries_stop_the_scan() {
    assert_eq!(
        scan(
            &named("WARP.md"),
            9,
            vec![dir("/repo"), Err("no access".to_string()), dir("relative")]
        ),
        Err(RepoContentsQueryError::QueryFailed {
            message: "no access".to_string()
        })
    );
    assert_eq!(
        scan(&named("WARP.md"), 9, vec![dir("relative")]),
        Err(RepoContentsQueryError::QueryFailed {
            message: "path is not absolute".to_string()
        })
    );
}

#[test]
fn a_repository_of_another_platform_cannot_be_scanned() {
    assert_eq!(
        query_local_repo_contents(
            &path("C:\\repo"),
            &named("WARP.md"),
            budget(9),
            PathEncoding::Unix,
            Vec::new(),
        ),
        Err(RepoContentsQueryError::QueryFailed {
            message: "Local repository path has incompatible encoding: C:\\repo".to_string()
        })
    );
}

#[test]
fn paths_that_are_no_text_stop_a_scan() {
    let unreadable = |name: &str, kind: WalkEntryKind| {
        Ok(WalkEntry {
            path: None,
            name: name.to_string(),
            kind,
        })
    };
    let scan = LocalScan::start(
        &path("/repo"),
        &named("WARP.md"),
        budget(10),
        PathEncoding::Unix,
    )
    .unwrap();
    let scan = match scan.step(unreadable(".git", WalkEntryKind::Directory)) {
        ScanStep::SkipSubtree(next) => next,
        _ => panic!("the data of Git is left out whatever its path is"),
    };
    match scan.step(unreadable("caf\u{fffd}.md", WalkEntryKind::File)) {
        ScanStep::Failed(RepoContentsQueryError::QueryFailed { message }) => {
            assert_eq!(message, "path is not valid Unicode");
        }
        _ => panic!("a path that is no text cannot be taken over"),
    }
}
