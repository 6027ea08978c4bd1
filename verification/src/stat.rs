//! What is known of a file, gathered from its attributes.

use vstd::prelude::*;

use crate::reparse::{REPARSE_TAG_MOUNT_POINT, REPARSE_TAG_SYMLINK};
use crate::time;
use crate::time::ntfs_time_to_unix;

verus! {

/// What a caller gets of a file.
#[derive(Debug, Clone, Copy)]
pub struct FsNtfsAttr {
    pub file_record_number: u64,
    pub size: u64,
    /// Seconds since 1970, negative before.
    pub atime_sec: i64,
    pub mtime_sec: i64,
    pub ctime_sec: i64,
    pub crtime_sec: i64,
    /// Nanoseconds since then.
    pub atime_nsec: u32,
    pub mtime_nsec: u32,
    pub ctime_nsec: u32,
    pub crtime_nsec: u32,
    pub mode: u16,
    pub link_count: u16,
    /// 1 for a file, 2 for a directory, 7 for a symbolic link, 8 for a junction.
    pub file_type: u32,
    pub attributes: u32,
}

/// The type of a file.
pub const FT_REG_FILE: u32 = 1;

/// The type of a directory.
pub const FT_DIR: u32 = 2;

/// The type of a symbolic link.
pub const FT_SYMLINK: u32 = 7;

/// The type of a junction.
pub const FT_JUNCTION: u32 = 8;

/// The mode of a directory.
pub const MODE_DIR: u16 = 0o40755;

/// The mode of a file.
pub const MODE_REG: u16 = 0o100644;

/// The mode of a symbolic link.
pub const MODE_LINK: u16 = 0o120777;

/// One of a file's attributes, as far as it says something of the file.
#[derive(Debug, Clone, Copy)]
pub enum SeenAttribute {
    /// The times, in ticks, and the file's flags.
    StandardInformation {
        creation: u64,
        modification: u64,
        access: u64,
        record_modification: u64,
        attributes: u32,
    },
    /// A data stream, and its length.
    Data { unnamed: bool, length: u64 },
    /// A reparse point, and its tag where that could be read.
    ReparsePoint { tag: Option<u32> },
    /// Anything else.
    Other,
}

/// A file before its attributes were looked at.
pub open spec fn blank(record: u64, links: u16, is_directory: bool) -> FsNtfsAttr {
    FsNtfsAttr {
        file_record_number: record,
        size: 0,
        atime_sec: 0,
        mtime_sec: 0,
        ctime_sec: 0,
        crtime_sec: 0,
        atime_nsec: 0,
        mtime_nsec: 0,
        ctime_nsec: 0,
        crtime_nsec: 0,
        mode: if is_directory {
            MODE_DIR
        } else {
            MODE_REG
        },
        link_count: links,
        file_type: if is_directory {
            FT_DIR
        } else {
            FT_REG_FILE
        },
        attributes: 0,
    }
}

/// What is known once `seen` was looked at too. A tag that is not that of a link
/// leaves the type that the file had: its data is there to be read.
pub open spec fn noted(a: FsNtfsAttr, seen: SeenAttribute) -> FsNtfsAttr {
    match seen {
        SeenAttribute::StandardInformation {
            creation,
            modification,
            access,
            record_modification,
            attributes,
        } => FsNtfsAttr {
            crtime_sec: time::unix_time(creation).0 as i64,
            crtime_nsec: time::unix_time(creation).1 as u32,
            mtime_sec: time::unix_time(modification).0 as i64,
            mtime_nsec: time::unix_time(modification).1 as u32,
            atime_sec: time::unix_time(access).0 as i64,
            atime_nsec: time::unix_time(access).1 as u32,
            ctime_sec: time::unix_time(record_modification).0 as i64,
            ctime_nsec: time::unix_time(record_modification).1 as u32,
            attributes,
            ..a
        },
        SeenAttribute::Data { unnamed, length } => if unnamed {
            FsNtfsAttr { size: length, ..a }
        } else {
            a
        },
        SeenAttribute::ReparsePoint { tag } => {
            let plain = if a.file_type == FT_DIR {
                a
            } else {
                FsNtfsAttr { file_type: FT_REG_FILE, mode: MODE_REG, ..a }
            };
            if tag == Some(REPARSE_TAG_SYMLINK) {
                FsNtfsAttr { file_type: FT_SYMLINK, mode: MODE_LINK, ..plain }
            } else if tag == Some(REPARSE_TAG_MOUNT_POINT) {
                FsNtfsAttr { file_type: FT_JUNCTION, ..plain }
            } else {
                plain
            }
        },
        SeenAttribute::Other => a,
    }
}

/// What is known once the first `n` attributes were looked at.
pub open spec fn gathered(a: FsNtfsAttr, seen: Seq<SeenAttribute>, n: int) -> FsNtfsAttr
    decreases n,
{
    if n <= 0 {
        a
    } else {
        noted(gathered(a, seen, n - 1), seen[n - 1])
    }
}

fn note(a: FsNtfsAttr, seen: SeenAttribute) -> (r: FsNtfsAttr)
    ensures
        r == noted(a, seen),
{
    let mut r: FsNtfsAttr = a;
    match seen {
        SeenAttribute::StandardInformation {
            creation,
            modification,
            access,
            record_modification,
            attributes,
        } => {
            let c: (i64, u32) = ntfs_time_to_unix(creation);
            let m: (i64, u32) = ntfs_time_to_unix(modification);
            let t: (i64, u32) = ntfs_time_to_unix(access);
            let w: (i64, u32) = ntfs_time_to_unix(record_modification);
            r.crtime_sec = c.0;
            r.crtime_nsec = c.1;
            r.mtime_sec = m.0;
            r.mtime_nsec = m.1;
            r.atime_sec = t.0;
            r.atime_nsec = t.1;
            r.ctime_sec = w.0;
            r.ctime_nsec = w.1;
            r.attributes = attributes;
        },
        SeenAttribute::Data { unnamed, length } => {
            if unnamed {
                r.size = length;
            }
        },
        SeenAttribute::ReparsePoint { tag } => {
            if r.file_type != FT_DIR {
                r.file_type = FT_REG_FILE;
                r.mode = MODE_REG;
            }
            match tag {
                Some(t) => {
                    if t == REPARSE_TAG_SYMLINK {
                        r.file_type = FT_SYMLINK;
                        r.mode = MODE_LINK;
                    } else if t == REPARSE_TAG_MOUNT_POINT {
                        r.file_type = FT_JUNCTION;
                    }
                },
                None => {},
            }
        },
        SeenAttribute::Other => {},
    }
    r
}

/// Gathers what is known of a file from its attributes, in their order.
pub fn fill_attr(record: u64, links: u16, is_directory: bool, seen: &[SeenAttribute]) -> (r:
    FsNtfsAttr)
    ensures
        r == gathered(blank(record, links, is_directory), seen@, seen@.len() as int),
{
    let mut r = FsNtfsAttr {
        file_record_number: record,
        size: 0,
        atime_sec: 0,
        mtime_sec: 0,
        ctime_sec: 0,
        crtime_sec: 0,
        atime_nsec: 0,
        mtime_nsec: 0,
        ctime_nsec: 0,
        crtime_nsec: 0,
        mode: if is_directory {
            MODE_DIR
        } else {
            MODE_REG
        },
        link_count: links,
        file_type: if is_directory {
            FT_DIR
        } else {
            FT_REG_FILE
        },
        attributes: 0,
    };
    let mut i: usize = 0;
    while i < seen.len()
        invariant
            i <= seen@.len(),
            r == gathered(blank(record, links, is_directory), seen@, i as int),
        decreases seen.len() - i,
    {
        r = note(r, seen[i]);
        i = i + 1;
    }
    r
}

} // verus!
