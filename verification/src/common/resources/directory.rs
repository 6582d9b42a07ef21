use crate::common::path::{same_path, SafePathBuf};
use crate::common::resources::group::Name as Groupname;
use crate::common::resources::user::Name as Username;
use crate::common::{Ensure, ResourceMetadata, TriggerMetadata};
use vstd::prelude::*;

verus! {

/// The parameters of a `directory` resource.
pub struct Parameters {
    pub path: SafePathBuf,
    pub ensure: Ensure,
    pub owner: Username,
    pub group: Option<Groupname>,
    /// Whether child nodes that no resource manages are removed.
    pub purge: bool,
}

/// How a directory relates to other resources, and the managed nodes in it.
pub struct Relationships {
    pub requires: Vec<ResourceMetadata>,
    pub after: Vec<ResourceMetadata>,
    pub triggers: Vec<TriggerMetadata>,
    pub children: Vec<ChildNode>,
}

impl Relationships {
    pub fn default() -> (r: Relationships)
        ensures
            r.requires@.len() == 0,
            r.after@.len() == 0,
            r.triggers@.len() == 0,
            r.children@.len() == 0,
    {
        Relationships {
            requires: Vec::new(),
            after: Vec::new(),
            triggers: Vec::new(),
            children: Vec::new(),
        }
    }
}

/// A node in a directory that a resource manages.
pub enum ChildNode {
    AptPreference { path: String },
    Directory { path: SafePathBuf },
    File { path: SafePathBuf },
    Symlink { path: SafePathBuf },
}

impl ChildNode {
    /// Whether this child is the directory at `path`.
    pub fn is_dir(&self, path: &str) -> (r: bool)
        ensures
            r == (self matches ChildNode::Directory { path: p } && same_path(p@, path@)),
    {
        match self {
            ChildNode::Directory { path: p } => crate::common::path::path_eq(p.as_str(), path),
            _ => false,
        }
    }

    /// Whether this child is the file at `path`. An apt preference counts as
    /// a file at any path.
    pub fn is_file(&self, path: &str) -> (r: bool)
        ensures
            r == (self is AptPreference || (self matches ChildNode::File { path: p } && same_path(p@, path@))),
    {
        match self {
            ChildNode::AptPreference { .. } => true,
            ChildNode::File { path: p } => crate::common::path::path_eq(p.as_str(), path),
            _ => false,
        }
    }

    /// Whether this child is the symlink at `path`.
    pub fn is_symlink(&self, path: &str) -> (r: bool)
        ensures
            r == (self matches ChildNode::Symlink { path: p } && same_path(p@, path@)),
    {
        match self {
            ChildNode::Symlink { path: p } => crate::common::path::path_eq(p.as_str(), path),
            _ => false,
        }
    }
}

} // verus!
