//! Names for repositories and for the places their files are at.

use vstd::prelude::*;

use crate::path::{PathEncoding, PathView, StandardizedPath};
use crate::table::Key;

verus! {

/// A machine that repositories can live on.
#[derive(Debug)]
pub struct HostId {
    id: String,
}

/// A path on a named host.
#[verifier::ext_equal]
pub struct HostPathView {
    pub host: Seq<char>,
    pub path: PathView,
}

/// Where a repository is.
#[verifier::ext_equal]
pub enum RepositoryView {
    Local(PathView),
    Remote(HostPathView),
}

/// Where a file is: at a path as the local machine writes it, or on another host.
#[verifier::ext_equal]
pub enum LocationView {
    Local(Seq<char>),
    Remote(HostPathView),
}

/// A repository on another host.
#[derive(Debug)]
pub struct RemoteRepositoryIdentifier {
    pub host_id: HostId,
    pub path: StandardizedPath,
}

/// A repository on this machine or on another host.
#[derive(Debug)]
pub enum RepositoryIdentifier {
    Local(StandardizedPath),
    Remote(RemoteRepositoryIdentifier),
}

/// A path on another host.
#[derive(Debug, PartialEq, Eq)]
pub struct RemotePath {
    pub host_id: HostId,
    pub path: StandardizedPath,
}

/// A file on this machine, by the text the machine reaches it with, or on another host.
#[derive(Debug, PartialEq, Eq)]
pub enum LocalOrRemotePath {
    Local(String),
    Remote(RemotePath),
}

impl View for HostId {
    type V = Seq<char>;

    closed spec fn view(&self) -> Seq<char> {
        self.id@
    }
}

impl View for RemoteRepositoryIdentifier {
    type V = HostPathView;

    open spec fn view(&self) -> HostPathView {
        HostPathView { host: self.host_id@, path: self.path@ }
    }
}

impl View for RepositoryIdentifier {
    type V = RepositoryView;

    open spec fn view(&self) -> RepositoryView {
        match self {
            RepositoryIdentifier::Local(path) => RepositoryView::Local(path@),
            RepositoryIdentifier::Remote(remote) => RepositoryView::Remote(remote@),
        }
    }
}

impl View for RemotePath {
    type V = HostPathView;

    open spec fn view(&self) -> HostPathView {
        HostPathView { host: self.host_id@, path: self.path@ }
    }
}

impl View for LocalOrRemotePath {
    type V = LocationView;

    open spec fn view(&self) -> LocationView {
        match self {
            LocalOrRemotePath::Local(path) => LocationView::Local(path@),
            LocalOrRemotePath::Remote(remote) => LocationView::Remote(remote@),
        }
    }
}

impl RepositoryView {
    /// The directory that a machine with `local` paths reaches the repository at; `None` for a
    /// local repository whose path the machine cannot write.
    pub open spec fn location(self, local: PathEncoding) -> Option<LocationView> {
        match self {
            RepositoryView::Local(path) => if path.root.spec_encoding() == local {
                Some(LocationView::Local(path.text()))
            } else {
                None
            },
            RepositoryView::Remote(remote) => Some(LocationView::Remote(remote)),
        }
    }
}

/// Names of repositories and places stand for what is in them, and those of this machine are told
/// apart from those on other hosts.
pub proof fn names_keep_every_field(
    id: RemoteRepositoryIdentifier,
    path: StandardizedPath,
    remote: RemotePath,
    written: String,
)
    ensures
        id@.host == id.host_id@,
        id@.path == id.path@,
        remote@.host == remote.host_id@,
        remote@.path == remote.path@,
        RepositoryIdentifier::Local(path)@ == RepositoryView::Local(path@),
        RepositoryIdentifier::Remote(id)@ == RepositoryView::Remote(id@),
        LocalOrRemotePath::Local(written)@ == LocationView::Local(written@),
        LocalOrRemotePath::Remote(remote)@ == LocationView::Remote(remote@),
{
}

/// A repository on another host is reached at its path there, from every machine. A local one is
/// reached at its path as it is written, by machines of the platform that the path belongs to and
/// by no others.
pub proof fn repositories_are_reached_where_they_are(
    path: PathView,
    remote: HostPathView,
    local: PathEncoding,
)
    ensures
        RepositoryView::Remote(remote).location(local) == Some(LocationView::Remote(remote)),
        path.root is Unix ==> {
            &&& RepositoryView::Local(path).location(PathEncoding::Unix) == Some(
                LocationView::Local(path.text()),
            )
            &&& RepositoryView::Local(path).location(PathEncoding::Windows) is None
        },
        path.root is Windows ==> {
            &&& RepositoryView::Local(path).location(PathEncoding::Windows) == Some(
                LocationView::Local(path.text()),
            )
            &&& RepositoryView::Local(path).location(PathEncoding::Unix) is None
        },
{
}

impl HostId {
    pub fn new(id: String) -> (host: HostId)
        ensures
            host@ == id@,
    {
        HostId { id }
    }

    pub fn as_str(&self) -> (id: &str)
        ensures
            id@ == self@,
    {
        self.id.as_str()
    }
}

impl RemoteRepositoryIdentifier {
    pub fn new(host_id: HostId, path: StandardizedPath) -> (id: RemoteRepositoryIdentifier)
        ensures
            id@ == (HostPathView { host: host_id@, path: path@ }),
    {
        RemoteRepositoryIdentifier { host_id, path }
    }
}

impl RemotePath {
    pub fn new(host_id: HostId, path: StandardizedPath) -> (remote: RemotePath)
        ensures
            remote@ == (HostPathView { host: host_id@, path: path@ }),
    {
        RemotePath { host_id, path }
    }
}

impl RepositoryIdentifier {
    /// The local repository at `path`.
    pub fn local(path: StandardizedPath) -> (id: RepositoryIdentifier)
        ensures
            id@ == RepositoryView::Local(path@),
    {
        RepositoryIdentifier::Local(path)
    }

    /// The repository's directory, as a machine with `local` paths reaches it.
    pub fn to_local_or_remote_path(&self, local: PathEncoding) -> (place: Option<
        LocalOrRemotePath,
    >)
        ensures
            match place {
                Some(place) => self@.location(local) == Some(place@),
                None => self@.location(local) is None,
            },
    {
        match self {
            RepositoryIdentifier::Local(path) => match path.to_local_path(local) {
                Some(written) => Some(LocalOrRemotePath::Local(written)),
                None => None,
            },
            RepositoryIdentifier::Remote(remote) => Some(
                LocalOrRemotePath::Remote(
                    RemotePath::new(remote.host_id.clone(), remote.path.clone()),
                ),
            ),
        }
    }
}

impl Clone for HostId {
    fn clone(&self) -> (host: Self)
        ensures
            host@ == self@,
    {
        HostId { id: self.id.clone() }
    }
}

impl Clone for RemoteRepositoryIdentifier {
    fn clone(&self) -> (id: Self)
        ensures
            id@ == self@,
    {
        RemoteRepositoryIdentifier { host_id: self.host_id.clone(), path: self.path.clone() }
    }
}

impl Clone for RepositoryIdentifier {
    fn clone(&self) -> (id: Self)
        ensures
            id@ == self@,
    {
        match self {
            RepositoryIdentifier::Local(path) => RepositoryIdentifier::Local(path.clone()),
            RepositoryIdentifier::Remote(remote) => RepositoryIdentifier::Remote(remote.clone()),
        }
    }
}

impl Clone for RemotePath {
    fn clone(&self) -> (remote: Self)
        ensures
            remote@ == self@,
    {
        RemotePath { host_id: self.host_id.clone(), path: self.path.clone() }
    }
}

impl Clone for LocalOrRemotePath {
    fn clone(&self) -> (place: Self)
        ensures
            place@ == self@,
    {
        match self {
            LocalOrRemotePath::Local(path) => LocalOrRemotePath::Local(path.clone()),
            LocalOrRemotePath::Remote(remote) => LocalOrRemotePath::Remote(remote.clone()),
        }
    }
}

impl vstd::std_specs::cmp::PartialEqSpecImpl for HostId {
    open spec fn obeys_eq_spec() -> bool {
        true
    }

    open spec fn eq_spec(&self, other: &Self) -> bool {
        self@ == other@
    }
}

impl PartialEq for HostId {
    fn eq(&self, other: &Self) -> (same: bool) {
        self.id == other.id
    }
}

impl Eq for HostId {

}

impl vstd::std_specs::cmp::PartialEqSpecImpl for RemoteRepositoryIdentifier {
    open spec fn obeys_eq_spec() -> bool {
        true
    }

    open spec fn eq_spec(&self, other: &Self) -> bool {
        self@ == other@
    }
}

impl PartialEq for RemoteRepositoryIdentifier {
    fn eq(&self, other: &Self) -> (same: bool) {
        self.host_id == other.host_id && self.path == other.path
    }
}

impl Eq for RemoteRepositoryIdentifier {

}

impl vstd::std_specs::cmp::PartialEqSpecImpl for RepositoryIdentifier {
    open spec fn obeys_eq_spec() -> bool {
        true
    }

    open spec fn eq_spec(&self, other: &Self) -> bool {
        self@ == other@
    }
}

impl PartialEq for RepositoryIdentifier {
    fn eq(&self, other: &Self) -> (same: bool) {
        match (self, other) {
            (RepositoryIdentifier::Local(a), RepositoryIdentifier::Local(b)) => a == b,
            (RepositoryIdentifier::Remote(a), RepositoryIdentifier::Remote(b)) => a == b,
            _ => false,
        }
    }
}

impl Eq for RepositoryIdentifier {

}

impl Key for StandardizedPath {
    fn same(&self, other: &Self) -> (same: bool) {
        self == other
    }

    fn copy(&self) -> (copy: Self) {
        self.clone()
    }
}

impl Key for RemoteRepositoryIdentifier {
    fn same(&self, other: &Self) -> (same: bool) {
        self == other
    }

    fn copy(&self) -> (copy: Self) {
        self.clone()
    }
}

impl Key for RepositoryIdentifier {
    fn same(&self, other: &Self) -> (same: bool) {
        self == other
    }

    fn copy(&self) -> (copy: Self) {
        self.clone()
    }
}

} // verus!
