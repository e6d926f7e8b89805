//! The inode of a file on a FAT32 volume.

use crate::error::KernelError;
use vstd::prelude::*;

verus! {

/// A cluster of a FAT32 volume, by number.
#[derive(Clone, Copy, Debug, PartialEq, Eq, Structural)]
pub struct Cluster(pub u32);

impl Cluster {
    pub fn value(&self) -> (r: usize)
        ensures
            r == self.0,
    {
        self.0 as usize
    }
}

/// What names an inode in the whole system: its filesystem and its number
/// there.
#[derive(Clone, Copy, Debug, PartialEq, Eq, Structural)]
pub struct InodeId {
    pub fs_id: u64,
    pub inode_id: u64,
}

impl InodeId {
    pub fn from_fsid_and_inodeid(fs_id: u64, inode_id: u64) -> (r: InodeId)
        ensures
            r == (InodeId { fs_id, inode_id }),
    {
        InodeId { fs_id, inode_id }
    }
}

/// What is known of a file without reading it.
#[derive(Clone, Copy, Debug, PartialEq, Eq, Structural)]
pub struct FileAttr {
    pub size: u64,
}

/// A file on a FAT32 volume: the cluster its chain starts at, its
/// attributes and its identity.
#[derive(Clone, Copy, Debug, PartialEq, Eq, Structural)]
pub struct Fat32FileNode {
    root: Cluster,
    attr: FileAttr,
    id: InodeId,
}

impl Fat32FileNode {
    /// The cluster the file's chain starts at.
    pub closed spec fn spec_root(self) -> Cluster {
        self.root
    }

    /// The file's attributes.
    pub closed spec fn spec_attr(self) -> FileAttr {
        self.attr
    }

    /// The file's identity.
    pub closed spec fn spec_id(self) -> InodeId {
        self.id
    }

    /// The node of the file whose chain starts at `root` on the volume
    /// `fs_id`: the number of its first cluster is its inode number.
    pub fn new(fs_id: u64, root: Cluster, attr: FileAttr) -> (r: Result<Fat32FileNode, KernelError>)
        ensures
            r.is_ok(),
            r.unwrap().spec_root() == root,
            r.unwrap().spec_attr() == attr,
            r.unwrap().spec_id() == (InodeId { fs_id, inode_id: root.0 as u64 }),
    {
        let id = InodeId::from_fsid_and_inodeid(fs_id, root.value() as u64);
        Ok(Fat32FileNode { root, attr, id })
    }

    /// The file's identity.
    pub fn id(&self) -> (r: InodeId)
        ensures
            r == self.spec_id(),
    {
        self.id
    }

    /// The file's attributes.
    pub fn getattr(&self) -> (r: Result<FileAttr, KernelError>)
        ensures
            r == Ok::<FileAttr, KernelError>(self.spec_attr()),
    {
        Ok(self.attr)
    }
}

} // verus!
