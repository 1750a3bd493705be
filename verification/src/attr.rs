//! The attributes of the served files and of the directory that lists them.

use vstd::prelude::*;
use crate::index::IndexEntry;

verus! {

/// The inode of the root directory.
pub const ROOT_INO: u64 = 1;

/// The size of the blocks that a file's space is counted in.
pub const BLOCK_BYTES: u64 = 512;

/// A point in time.
#[derive(Debug, Clone, Copy, PartialEq, Eq, Structural)]
pub enum FileTime {
    /// The moment at which the attributes are asked for.
    Now,
    /// Seconds since the start of 1970.
    SinceEpoch(u64),
}

/// What a name stands for.
#[derive(Debug, Clone, Copy, PartialEq, Eq, Structural)]
pub enum NodeKind {
    Directory,
    RegularFile,
}

/// The attributes of a file or directory.
#[derive(Debug, Clone, Copy, PartialEq, Eq, Structural)]
pub struct Attr {
    pub ino: u64,
    pub size: u64,
    pub blocks: u64,
    pub atime: FileTime,
    pub mtime: FileTime,
    pub ctime: FileTime,
    pub crtime: FileTime,
    pub kind: NodeKind,
    pub perm: u16,
    pub nlink: u32,
    pub uid: u32,
    pub gid: u32,
    pub rdev: u32,
    pub flags: u32,
    pub blksize: u32,
}

/// What the host states of the file of an image: its times, in seconds since the start of
/// 1970, and its owners.
#[derive(Debug, Clone, Copy, PartialEq, Eq, Structural)]
pub struct HostStat {
    pub mtime: i64,
    pub ctime: i64,
    pub uid: u32,
    pub gid: u32,
}

impl HostStat {
    /// The times are not before 1970.
    pub open spec fn dated(self) -> bool {
        self.mtime >= 0 && self.ctime >= 0
    }
}

/// The number of blocks that `size` bytes take, the last one perhaps in part.
pub open spec fn blocks_of(size: int) -> int {
    (size + BLOCK_BYTES - 1) / (BLOCK_BYTES as int)
}

/// A read-only regular file with the given times and owners.
pub open spec fn file_attr(
    e: IndexEntry,
    mtime: FileTime,
    ctime: FileTime,
    uid: u32,
    gid: u32,
) -> Attr {
    Attr {
        ino: e.ino,
        size: e.iso_size,
        blocks: blocks_of(e.iso_size as int) as u64,
        atime: FileTime::Now,
        mtime,
        ctime,
        crtime: FileTime::SinceEpoch(0),
        kind: NodeKind::RegularFile,
        perm: 0o444,
        nlink: 1,
        uid,
        gid,
        rdev: 0,
        flags: 0,
        blksize: 4096,
    }
}

/// The attributes of a file whose image the host states nothing of.
pub open spec fn default_attr(e: IndexEntry, euid: u32, egid: u32) -> Attr {
    file_attr(e, FileTime::Now, FileTime::Now, euid, egid)
}

/// The attributes of a file whose image the host knows.
pub open spec fn attr_for(e: IndexEntry, stat: HostStat) -> Attr {
    file_attr(
        e,
        FileTime::SinceEpoch(stat.mtime as u64),
        FileTime::SinceEpoch(stat.ctime as u64),
        stat.uid,
        stat.gid,
    )
}

/// The attributes of the root directory.
pub open spec fn root_attr_model(euid: u32, egid: u32) -> Attr {
    Attr {
        ino: ROOT_INO,
        size: 0,
        blocks: 1,
        atime: FileTime::Now,
        mtime: FileTime::Now,
        ctime: FileTime::Now,
        crtime: FileTime::SinceEpoch(0),
        kind: NodeKind::Directory,
        perm: 0o755,
        nlink: 2,
        uid: euid,
        gid: egid,
        rdev: 0,
        flags: 0,
        blksize: 4096,
    }
}

fn blocks(size: u64) -> (r: u64)
    ensures
        r == blocks_of(size as int),
{
    if size % BLOCK_BYTES == 0 {
        size / BLOCK_BYTES
    } else {
        size / BLOCK_BYTES + 1
    }
}

/// The attributes of a file whose image the host states nothing of.  Its owners are those
/// of the running program.
pub fn default_file_attr(e: &IndexEntry, euid: u32, egid: u32) -> (r: Attr)
    ensures
        r == default_attr(*e, euid, egid),
{
    Attr {
        ino: e.ino,
        size: e.iso_size,
        blocks: blocks(e.iso_size),
        atime: FileTime::Now,
        mtime: FileTime::Now,
        ctime: FileTime::Now,
        crtime: FileTime::SinceEpoch(0),
        kind: NodeKind::RegularFile,
        perm: 0o444,
        nlink: 1,
        uid: euid,
        gid: egid,
        rdev: 0,
        flags: 0,
        blksize: 4096,
    }
}

/// The attributes of a file: size and inode of its own, times and owners of its image.
pub fn file_attr_for(e: &IndexEntry, stat: &HostStat) -> (r: Attr)
    requires
        stat.dated(),
    ensures
        r == attr_for(*e, *stat),
{
    Attr {
        ino: e.ino,
        size: e.iso_size,
        blocks: blocks(e.iso_size),
        atime: FileTime::Now,
        mtime: FileTime::SinceEpoch(stat.mtime as u64),
        ctime: FileTime::SinceEpoch(stat.ctime as u64),
        crtime: FileTime::SinceEpoch(0),
        kind: NodeKind::RegularFile,
        perm: 0o444,
        nlink: 1,
        uid: stat.uid,
        gid: stat.gid,
        rdev: 0,
        flags: 0,
        blksize: 4096,
    }
}

/// The attributes of the root directory, which belongs to the running program.
pub fn root_attr(euid: u32, egid: u32) -> (r: Attr)
    ensures
        r == root_attr_model(euid, egid),
{
    Attr {
        ino: ROOT_INO,
        size: 0,
        blocks: 1,
        atime: FileTime::Now,
        mtime: FileTime::Now,
        ctime: FileTime::Now,
        crtime: FileTime::SinceEpoch(0),
        kind: NodeKind::Directory,
        perm: 0o755,
        nlink: 2,
        uid: euid,
        gid: egid,
        rdev: 0,
        flags: 0,
        blksize: 4096,
    }
}

/// The blocks of a file hold all of it, and there is none without a byte of it.
pub proof fn law_blocks_hold_file(e: IndexEntry, stat: HostStat)
    ensures
        attr_for(e, stat).size == e.iso_size,
        e.iso_size <= attr_for(e, stat).blocks * BLOCK_BYTES < e.iso_size + BLOCK_BYTES,
{
}

/// The blocks of 512 bytes that a file takes: one for each 512 bytes, and one more for what
/// is left.
pub proof fn law_block_count(full: int, left: int)
    requires
        0 <= full,
        0 <= left < 512,
    ensures
        blocks_of(full * 512 + left) == (if left == 0 {
            full
        } else {
            full + 1
        }),
{
}

/// What the attributes of a file state.  It is a regular file that all may read and none may
/// write, with one link.  Its inode and size are its own; its times of change and its owners
/// are those of its image, where the host states them, and else the moment and the program's
/// own.
pub proof fn law_file_attributes(e: IndexEntry, stat: HostStat, euid: u32, egid: u32)
    requires
        stat.mtime >= 0,
        stat.ctime >= 0,
    ensures
        stat.dated(),
        ({
            let a = attr_for(e, stat);
            &&& a.ino == e.ino
            &&& a.size == e.iso_size
            &&& (e.iso_size % 512 == 0 ==> a.blocks * 512 == e.iso_size)
            &&& (e.iso_size % 512 != 0 ==> a.blocks * 512 == e.iso_size - e.iso_size % 512 + 512)
            &&& a.atime == FileTime::Now
            &&& a.mtime == FileTime::SinceEpoch(stat.mtime as u64)
            &&& a.ctime == FileTime::SinceEpoch(stat.ctime as u64)
            &&& a.crtime == FileTime::SinceEpoch(0)
            &&& a.kind == NodeKind::RegularFile
            &&& a.perm == 0o444
            &&& a.nlink == 1
            &&& a.uid == stat.uid
            &&& a.gid == stat.gid
            &&& a.rdev == 0
            &&& a.flags == 0
            &&& a.blksize == 4096
        }),
        ({
            let d = default_attr(e, euid, egid);
            &&& d.mtime == FileTime::Now
            &&& d.ctime == FileTime::Now
            &&& d.uid == euid
            &&& d.gid == egid
            &&& (Attr {
                mtime: FileTime::SinceEpoch(stat.mtime as u64),
                ctime: FileTime::SinceEpoch(stat.ctime as u64),
                uid: stat.uid,
                gid: stat.gid,
                ..d
            }) == attr_for(e, stat)
        }),
{
}

/// What the attributes of the root directory state: inode 1, no bytes in one block, and that
/// all may read it and its owner, the program's own, may write it.
pub proof fn law_root_attributes(euid: u32, egid: u32)
    ensures
        ({
            let a = root_attr_model(euid, egid);
            &&& a.ino == 1
            &&& a.size == 0
            &&& a.blocks == 1
            &&& a.atime == FileTime::Now
            &&& a.mtime == FileTime::Now
            &&& a.ctime == FileTime::Now
            &&& a.crtime == FileTime::SinceEpoch(0)
            &&& a.kind == NodeKind::Directory
            &&& a.perm == 0o755
            &&& a.nlink == 2
            &&& a.uid == euid
            &&& a.gid == egid
            &&& a.rdev == 0
            &&& a.flags == 0
            &&& a.blksize == 4096
        }),
{
}

} // verus!
