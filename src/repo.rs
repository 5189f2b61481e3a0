//! The repository collaborators of a pass, and the entries that a walk yields.
use vstd::prelude::*;

verus! {

/// A repository at a branch or revision scope.
pub struct RepoRef {
    /// The name under which the repository's documents are indexed.
    pub name: String,
    /// The reference's string form, which namespaces its cache keys.
    pub reference: String,
}

impl RepoRef {
    pub fn new(name: String, reference: String) -> (r: RepoRef)
        ensures
            r.name@ == name@,
            r.reference@ == reference@,
    {
        RepoRef { name, reference }
    }

    /// The name under which the repository's documents are indexed.
    pub fn indexed_name(&self) -> (r: String)
        ensures
            r@ == self.name@,
    {
        self.name.clone()
    }
}

/// A repository checked out on disk.
pub struct Repository {
    pub disk_path: String,
}

/// Facts about a repository that a pass passes through unchanged.
pub struct RepoMetadata {
    pub commit_hash: String,
    pub last_commit_unix_secs: Option<u64>,
}

/// A file found by the walk: its path on disk and its content.
pub struct FileEntry {
    pub path: String,
    pub buffer: String,
}

/// One entry of a repository walk.
pub enum RepoDirectoryEntry {
    File(FileEntry),
    Dir(String),
    /// Neither a file nor a directory (a broken link, a special file).
    Other,
}

impl RepoDirectoryEntry {
    /// The entry's path on disk, where it has one.
    pub fn path(&self) -> (r: Option<&str>)
        ensures
            match self {
                RepoDirectoryEntry::File(f) => r is Some && r->0@ == f.path@,
                RepoDirectoryEntry::Dir(p) => r is Some && r->0@ == p@,
                RepoDirectoryEntry::Other => r is None,
            },
    {
        match self {
            RepoDirectoryEntry::File(f) => Some(f.path.as_str()),
            RepoDirectoryEntry::Dir(p) => Some(p.as_str()),
            RepoDirectoryEntry::Other => None,
        }
    }

    /// The entry's content: only a file has one.
    pub fn buffer(&self) -> (r: Option<&str>)
        ensures
            match self {
                RepoDirectoryEntry::File(f) => r is Some && r->0@ == f.buffer@,
                _ => r is None,
            },
    {
        match self {
            RepoDirectoryEntry::File(f) => Some(f.buffer.as_str()),
            _ => None,
        }
    }

    pub open spec fn path_spec(&self) -> Seq<char> {
        match self {
            RepoDirectoryEntry::File(f) => f.path@,
            RepoDirectoryEntry::Dir(p) => p@,
            RepoDirectoryEntry::Other => Seq::empty(),
        }
    }

    /// The entry's content as characters, where it has one.
    pub open spec fn content_spec(&self) -> Option<Seq<char>> {
        match self {
            RepoDirectoryEntry::File(f) => Some(f.buffer@),
            _ => None,
        }
    }
}

} // verus!
