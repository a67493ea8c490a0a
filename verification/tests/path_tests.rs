use repo_metadata::identifier::{
    HostId, LocalOrRemotePath, RemotePath, RemoteRepositoryIdentifier, RepositoryIdentifier,
};
use repo_metadata::path::{InvalidPathError, PathEncoding, StandardizedPath};

fn path(text: &str) -> StandardizedPath {
    StandardizedPath::try_new(text).unwrap()
}

#[test]
fn paths_are_normalised() {
    assert_eq!(path("/repo//a/./b/../c/").as_str(), "/repo/a/c");
    assert_eq!(path("/../..").as_str(), "/");
    assert_eq!(path("/").as_str(), "/");
    assert_eq!(path("/a\\b").as_str(), "/a\\b");
    assert_eq!(path("C:/repo\\a").as_str(), "C:\\repo\\a");
    assert_eq!(path("c:\\").as_str(), "c:\\");
    assert_eq!(path("/repo/a"), path("/repo/x/../a"));
    assert_ne!(path("/repo/a"), path("/repo/b"));
}

#[test]
fn relative_paths_are_refused() {
    for text in ["", "repo", "./repo", "C:", "C:repo", "1:\\x", "\\x"] {
        assert_eq!(
            StandardizedPath::try_new(text),
            Err(InvalidPathError::NotAbsolute)
        );
    }
    assert_eq!(
        InvalidPathError::NotAbsolute.message(),
        "path is not absolute"
    );
    assert_eq!(
        InvalidPathError::NotUnicode.message(),
        "path is not valid Unicode"
    );
}

#[test]
fn written_paths_read_back_as_themselves() {
    for text in ["/", "/repo", "/repo/a b/c.d", "Z:\\", "Z:\\x\\y"] {
        assert_eq!(path(text).to_string(), text);
        assert_eq!(path(&path(text).to_string()), path(text));
    }
}

#[test]
fn parts_of_a_path() {
    let file = path("/repo/archive.tar.gz");
    assert_eq!(file.file_name(), Some("archive.tar.gz"));
    assert_eq!(file.extension(), Some("gz"));
    assert_eq!(file.parent(), Some(path("/repo")));
    assert_eq!(path("/repo/.gitignore").extension(), None);
    assert_eq!(path("/repo/name").extension(), None);
    assert_eq!(path("/repo/name.").extension(), Some(""));
    assert_eq!(path("/").file_name(), None);
    assert_eq!(path("/").parent(), None);
    assert_eq!(path("/repo").parent(), Some(path("/")));
    assert_eq!(path("C:\\a\\b").parent(), Some(path("C:\\a")));
}

#[test]
fn children_have_ordinary_names() {
    assert_eq!(path("/repo").child("x"), Some(path("/repo/x")));
    assert_eq!(path("/").child("a\\b"), Some(path("/a\\b")));
    assert_eq!(path("C:\\").child("a\\b"), None);
    for name in ["", ".", "..", "a/b"] {
        assert_eq!(path("/repo").child(name), None);
    }
}

#[test]
fn nesting_is_by_components() {
    assert!(path("/repo/a/b").is_strictly_below(&path("/repo")));
    assert!(path("/repo").is_strictly_below(&path("/")));
    assert!(!path("/repo").is_strictly_below(&path("/repo")));
    assert!(!path("/repository").is_strictly_below(&path("/repo")));
    assert!(!path("C:\\repo").is_strictly_below(&path("/")));
}

#[test]
fn paths_belong_to_a_platform() {
    assert_eq!(path("/repo").encoding(), PathEncoding::Unix);
    assert_eq!(path("C:\\repo").encoding(), PathEncoding::Windows);
    assert_eq!(
        path("/repo").to_local_path(PathEncoding::Unix),
        Some("/repo".to_string())
    );
    assert_eq!(path("/repo").to_local_path(PathEncoding::Windows), None);
    assert!(StandardizedPath::try_from_local("/repo", PathEncoding::Unix).is_ok());
    assert!(StandardizedPath::try_from_local("/repo", PathEncoding::Windows).is_err());
    assert!(StandardizedPath::try_from_local("repo", PathEncoding::Unix).is_err());
}

#[test]
fn repositories_are_reached_where_they_are() {
    let local = RepositoryIdentifier::local(path("/repo"));
    assert_eq!(
        local.to_local_or_remote_path(PathEncoding::Unix),
        Some(LocalOrRemotePath::Local("/repo".to_string()))
    );
    assert_eq!(local.to_local_or_remote_path(PathEncoding::Windows), None);
    let host = HostId::new("h".to_string());
    assert_eq!(host.as_str(), "h");
    let remote = RepositoryIdentifier::Remote(RemoteRepositoryIdentifier::new(
        host.clone(),
        path("C:\\repo"),
    ));
    assert_eq!(
        remote.to_local_or_remote_path(PathEncoding::Unix),
        Some(LocalOrRemotePath::Remote(RemotePath::new(
            host,
            path("C:\\repo")
        )))
    );
    assert_ne!(local, remote);
}
