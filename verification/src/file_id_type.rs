//! The ways in which a handler may name a file: by an inode of its own, by
//! a path, by the path's components, or by inode and path together.

use vstd::prelude::*;
use vstd::std_specs::cmp::PartialEqSpecImpl;
use crate::inode::{Inode, ROOT_INO};

verus! {

/// An inode that the framework manages, with the path that leads to it. Two
/// of them are the same file where their inodes are the same.
#[derive(Debug, Clone, Eq)]
pub struct HybridId(pub Inode, pub Vec<u8>);

impl PartialEq for HybridId {
    fn eq(&self, other: &Self) -> (same: bool) {
        self.0.as_raw() == other.0.as_raw()
    }
}

impl PartialEqSpecImpl for HybridId {
    open spec fn obeys_eq_spec() -> bool {
        true
    }

    open spec fn eq_spec(&self, other: &Self) -> bool {
        self.0@ == other.0@
    }
}

impl HybridId {
    /// The inode.
    pub fn inode(&self) -> (inode: &Inode)
        ensures
            *inode == self.0,
    {
        &self.0
    }

    /// The path, relative to the mountpoint.
    pub fn path(&self) -> (path: &[u8])
        ensures
            path@ == self.1@,
    {
        self.1.as_slice()
    }

    /// Whether this names the mountpoint directory, which the inode decides.
    pub fn is_filesystem_root(&self) -> (root: bool)
        ensures
            root == (self.0@ == ROOT_INO),
    {
        self.0.is_filesystem_root()
    }
}

/// Whether a path names the mountpoint directory: the empty path does.
pub fn path_is_filesystem_root(path: &[u8]) -> (root: bool)
    ensures
        root == (path@.len() == 0),
{
    path.len() == 0
}

/// Whether a path given by its components names the mountpoint directory:
/// the path without components does.
pub fn components_is_filesystem_root(components: &Vec<Vec<u8>>) -> (root: bool)
    ensures
        root == (components@.len() == 0),
{
    components.len() == 0
}

} // verus!
