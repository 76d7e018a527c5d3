//! The metadata directory of a local repository and the files it holds.
use vstd::prelude::*;

verus! {

#[derive(Clone, Copy, Debug, PartialEq, Eq, Structural)]
pub enum MetaDirError {
    /// No repository root is known.
    RootNotSet,
}

/// `root/.fileshare/name`.
pub open spec fn meta_file(root: Seq<char>, name: Seq<char>) -> Seq<char> {
    root + "/.fileshare/"@ + name
}

fn join_meta(root: &String, name: &str) -> (r: String)
    ensures
        r@ == meta_file(root@, name@),
{
    let mut p = root.clone();
    p.append("/.fileshare/");
    p.append(name);
    p
}

/// Where a repository's local state lives: `.fileshare` under its root.
pub struct MetaDir {
    pub root_dir: Option<String>,
}

impl MetaDir {
    pub fn at(root: String) -> (r: MetaDir)
        ensures
            r.root_dir matches Some(v) && v@ == root@,
    {
        MetaDir { root_dir: Some(root) }
    }

    pub fn root(&self) -> (r: Result<String, MetaDirError>)
        ensures
            self.root_dir is None ==> r == Err::<String, MetaDirError>(MetaDirError::RootNotSet),
            self.root_dir matches Some(v) ==> (r matches Ok(p) && p@ == v@),
    {
        match &self.root_dir {
            Some(root) => Ok(root.clone()),
            None => Err(MetaDirError::RootNotSet),
        }
    }

    /// The metadata directory itself; its presence marks a repository root.
    pub fn meta_dir_path(root: &String) -> (r: String)
        ensures
            r@ == root@ + "/.fileshare"@,
    {
        let mut p = root.clone();
        p.append("/.fileshare");
        p
    }

    fn meta_path(&self, name: &str) -> (r: Result<String, MetaDirError>)
        ensures
            self.root_dir is None ==> r == Err::<String, MetaDirError>(MetaDirError::RootNotSet),
            self.root_dir matches Some(v) ==> (r matches Ok(p) && p@ == meta_file(v@, name@)),
    {
        match &self.root_dir {
            Some(root) => Ok(join_meta(root, name)),
            None => Err(MetaDirError::RootNotSet),
        }
    }

    pub fn connection_config_path(&self) -> (r: Result<String, MetaDirError>)
        ensures
            self.root_dir is None ==> r == Err::<String, MetaDirError>(MetaDirError::RootNotSet),
            self.root_dir matches Some(v) ==> (r matches Ok(p) && p@ == meta_file(v@, "connection.json"@)),
    {
        self.meta_path("connection.json")
    }

    pub fn repository_config_path(&self) -> (r: Result<String, MetaDirError>)
        ensures
            self.root_dir is None ==> r == Err::<String, MetaDirError>(MetaDirError::RootNotSet),
            self.root_dir matches Some(v) ==> (r matches Ok(p) && p@ == meta_file(v@, "repository.json"@)),
    {
        self.meta_path("repository.json")
    }

    /// The baseline file.
    pub fn local_database_path(&self) -> (r: Result<String, MetaDirError>)
        ensures
            self.root_dir is None ==> r == Err::<String, MetaDirError>(MetaDirError::RootNotSet),
            self.root_dir matches Some(v) ==> (r matches Ok(p) && p@ == meta_file(v@, "database.json"@)),
    {
        self.meta_path("database.json")
    }

    /// Where downloads are written before they are renamed into place.
    pub fn tmp_download_dir(&self) -> (r: Result<String, MetaDirError>)
        ensures
            self.root_dir is None ==> r == Err::<String, MetaDirError>(MetaDirError::RootNotSet),
            self.root_dir matches Some(v) ==> (r matches Ok(p) && p@ == meta_file(v@, "tmp"@)),
    {
        self.meta_path("tmp")
    }
}

} // verus!
