//! Inode numbers of a userspace filesystem.

use vstd::prelude::*;

verus! {

/// Raw number of the root inode.
pub const ROOT_INO: u64 = 1;

/// An inode number: the opaque 64-bit identifier by which the kernel refers
/// to a filesystem object across calls.
#[derive(Debug, Clone, Copy, PartialEq, Eq, Hash, Structural)]
pub struct Inode(pub u64);

impl View for Inode {
    type V = u64;

    open spec fn view(&self) -> u64 {
        self.0
    }
}

impl Inode {
    /// The mountpoint directory. Its number is 1 and never changes.
    pub fn root() -> (inode: Inode)
        ensures
            inode@ == ROOT_INO,
    {
        Inode(ROOT_INO)
    }

    /// Wraps a raw inode number.
    pub fn from(value: u64) -> (inode: Inode)
        ensures
            inode@ == value,
    {
        Inode(value)
    }

    /// The raw number.
    pub fn as_raw(&self) -> (raw: u64)
        ensures
            raw == self@,
    {
        self.0
    }

    /// The successor of this inode: a greater number, never one that was
    /// handed out before it.
    pub fn add_one(&self) -> (next: Inode)
        requires
            self@ < u64::MAX,
        ensures
            next@ == self@ + 1,
    {
        Inode(self.0 + 1)
    }

    /// Whether this is the mountpoint directory.
    pub fn is_filesystem_root(&self) -> (root: bool)
        ensures
            root == (self@ == ROOT_INO),
    {
        self.0 == ROOT_INO
    }
}

impl From<u64> for Inode {
    fn from(value: u64) -> (inode: Inode) {
        Inode(value)
    }
}

impl vstd::std_specs::convert::FromSpecImpl<u64> for Inode {
    open spec fn obeys_from_spec() -> bool {
        true
    }

    open spec fn from_spec(value: u64) -> Inode {
        Inode(value)
    }
}

impl From<Inode> for u64 {
    fn from(inode: Inode) -> (raw: u64) {
        inode.0
    }
}

impl vstd::std_specs::convert::FromSpecImpl<Inode> for u64 {
    open spec fn obeys_from_spec() -> bool {
        true
    }

    open spec fn from_spec(inode: Inode) -> u64 {
        inode.0
    }
}

} // verus!
