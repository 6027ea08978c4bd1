//! Directory listings, one entry at a time.
//!
//! A listing begins with `.` and `..`, which the index does not hold. What follows
//! are the entries of the index, without those that only give another entry its
//! short name.

use vstd::prelude::*;

verus! {

/// The room for a name, a zero behind it included.
pub const FS_NTFS_DIRENT_NAME_BYTES: usize = 1024;

/// What a caller gets of a directory entry.
pub struct FsNtfsDirent {
    pub file_record_number: u64,
    /// 1 for a file, 2 for a directory.
    pub file_type: u8,
    pub name_len: u16,
    pub name: [u8; FS_NTFS_DIRENT_NAME_BYTES],
}

/// As much of `name` as there is room for.
pub open spec fn kept_name(name: Seq<u8>) -> Seq<u8> {
    if name.len() <= FS_NTFS_DIRENT_NAME_BYTES - 1 {
        name
    } else {
        name.take(FS_NTFS_DIRENT_NAME_BYTES - 1)
    }
}

/// The entry has the record number, the type and the name, with zeros behind it.
pub open spec fn is_dirent(d: FsNtfsDirent, record: u64, file_type: u8, name: Seq<u8>) -> bool {
    let kept = kept_name(name);
    &&& d.file_record_number == record
    &&& d.file_type == file_type
    &&& d.name_len == kept.len()
    &&& d.name@.len() == FS_NTFS_DIRENT_NAME_BYTES
    &&& forall|i: int|
        0 <= i < FS_NTFS_DIRENT_NAME_BYTES ==> #[trigger] d.name@[i] == if i < kept.len() {
            kept[i]
        } else {
            0
        }
}

/// Builds a directory entry. A name that is too long is cut.
pub fn make_dirent(file_record_number: u64, file_type: u8, name: &[u8]) -> (d: FsNtfsDirent)
    ensures
        is_dirent(d, file_record_number, file_type, name@),
{
    let n: usize = if name.len() < FS_NTFS_DIRENT_NAME_BYTES - 1 {
        name.len()
    } else {
        FS_NTFS_DIRENT_NAME_BYTES - 1
    };
    let mut out: [u8; FS_NTFS_DIRENT_NAME_BYTES] = [0u8;FS_NTFS_DIRENT_NAME_BYTES];
    let mut i: usize = 0;
    while i < n
        invariant
            n <= name@.len(),
            n <= FS_NTFS_DIRENT_NAME_BYTES - 1,
            i <= n,
            out@.len() == FS_NTFS_DIRENT_NAME_BYTES,
            forall|k: int| 0 <= k < i ==> #[trigger] out@[k] == name@[k],
            forall|k: int| i <= k < FS_NTFS_DIRENT_NAME_BYTES ==> #[trigger] out@[k] == 0,
        decreases n - i,
    {
        out[i] = name[i];
        i = i + 1;
    }
    FsNtfsDirent { file_record_number, file_type, name_len: n as u16, name: out }
}

/// What the index gives next.
pub enum IndexItem {
    /// There are no more entries.
    End,
    /// An entry that could not be read.
    Unreadable,
    /// An entry, with its name in UTF-8.
    Entry { record: u64, is_directory: bool, dos_only: bool, name: Vec<u8> },
}

/// What is to be done for the next entry of a listing.
pub enum DirStep {
    /// Give the caller the directory itself.
    Dot,
    /// Give the caller the directory's parent.
    DotDot,
    /// Ask the index for its next item.
    Fetch,
    /// Give the caller this entry.
    Emit(FsNtfsDirent),
    /// Tell the caller that the listing is at its end.
    Done,
}

/// How far a listing has come.
#[derive(Clone, Copy)]
pub struct DirCursor {
    /// 0: before `.`; 1: before `..`; 2: in the index; 3: at the end.
    pub phase: u8,
    /// The entries that could not be read.
    pub skipped: u64,
}

/// The cursor after it was asked for the next entry.
pub open spec fn advanced(c: DirCursor) -> DirCursor {
    DirCursor {
        phase: if c.phase < 2 {
            (c.phase + 1) as u8
        } else {
            c.phase
        },
        ..c
    }
}

/// The cursor after it was given what the index holds next.
pub open spec fn accepted(c: DirCursor, item: IndexItem) -> DirCursor {
    match item {
        IndexItem::End => DirCursor { phase: 3, ..c },
        IndexItem::Unreadable => DirCursor {
            skipped: if c.skipped == u64::MAX {
                u64::MAX
            } else {
                (c.skipped + 1) as u64
            },
            ..c
        },
        IndexItem::Entry { .. } => c,
    }
}

/// The cursor after it was given the first `n` items.
pub open spec fn accepted_all(c: DirCursor, items: Seq<IndexItem>, n: int) -> DirCursor
    decreases n,
{
    if n <= 0 {
        c
    } else {
        accepted(accepted_all(c, items, n - 1), items[n - 1])
    }
}

/// How many of the first `n` items could not be read.
pub open spec fn unreadable(items: Seq<IndexItem>, n: int) -> int
    decreases n,
{
    if n <= 0 {
        0
    } else if items[n - 1] is Unreadable {
        unreadable(items, n - 1) + 1
    } else {
        unreadable(items, n - 1)
    }
}

impl DirCursor {
    /// The start of a listing.
    pub fn new() -> (c: Self)
        ensures
            c.phase == 0,
            c.skipped == 0,
    {
        DirCursor { phase: 0, skipped: 0 }
    }

    /// What is to be done for the next entry.
    pub fn advance(&mut self) -> (step: DirStep)
        ensures
            *final(self) == advanced(*old(self)),
            match old(self).phase {
                0 => step is Dot,
                1 => step is DotDot,
                2 => step is Fetch,
                _ => step is Done,
            },
    {
        if self.phase == 0 {
            self.phase = 1;
            DirStep::Dot
        } else if self.phase == 1 {
            self.phase = 2;
            DirStep::DotDot
        } else if self.phase == 2 {
            DirStep::Fetch
        } else {
            DirStep::Done
        }
    }

    /// What is to be done with what the index gave. An entry that could not be
    /// read is counted and passed over, and one that has only a short name is
    /// passed over.
    pub fn accept(&mut self, item: IndexItem) -> (step: DirStep)
        ensures
            *final(self) == accepted(*old(self), item),
            match item {
                IndexItem::End => step is Done,
                IndexItem::Unreadable => step is Fetch,
                IndexItem::Entry { record, is_directory, dos_only, name } => if dos_only {
                    step is Fetch
                } else {
                    step matches DirStep::Emit(d) && is_dirent(
                        d,
                        record,
                        if is_directory {
                            2
                        } else {
                            1
                        },
                        name@,
                    )
                },
            },
    {
        match item {
            IndexItem::End => {
                self.phase = 3;
                DirStep::Done
            },
            IndexItem::Unreadable => {
                self.skipped = self.skipped.saturating_add(1);
                DirStep::Fetch
            },
            IndexItem::Entry { record, is_directory, dos_only, name } => {
                if dos_only {
                    DirStep::Fetch
                } else {
                    let file_type: u8 = if is_directory {
                        2
                    } else {
                        1
                    };
                    DirStep::Emit(make_dirent(record, file_type, name.as_slice()))
                }
            },
        }
    }
}

/// A listing asks the index for entries after `.` and `..`, and not before, and
/// goes on to do so.
pub proof fn lemma_dots_come_first(c: DirCursor)
    requires
        c.phase == 0,
    ensures
        advanced(c).phase == 1,
        advanced(advanced(c)).phase == 2,
        advanced(advanced(advanced(c))) == advanced(advanced(c)),
{
}

/// What a listing says that it passed over is as many items as could not be read,
/// as far as it can count, and an item other than the end does not end it.
pub proof fn lemma_skipped_are_unreadable(c: DirCursor, items: Seq<IndexItem>, n: int)
    requires
        0 <= n <= items.len(),
        forall|i: int| 0 <= i < n ==> !((#[trigger] items[i]) is End),
    ensures
        accepted_all(c, items, n).phase == c.phase,
        accepted_all(c, items, n).skipped == if c.skipped + unreadable(items, n) > u64::MAX {
            u64::MAX as int
        } else {
            c.skipped + unreadable(items, n)
        },
        unreadable(items, n) >= 0,
    decreases n,
{
    if n > 0 {
        lemma_skipped_are_unreadable(c, items, n - 1);
    }
}

/// The parent that a listing shows: that of the root is the root, and where it
/// could not be found the directory itself stands for it.
pub fn listed_parent(record: u64, parent: Result<u64, String>) -> (p: u64)
    ensures
        p == if record == ROOT_RECORD_NUMBER {
            record
        } else {
            match parent {
                Ok(n) => n,
                Err(_) => record,
            }
        },
{
    if record == ROOT_RECORD_NUMBER {
        return record;
    }
    match parent {
        Ok(n) => n,
        Err(_) => record,
    }
}

/// The file record of the root directory.
pub const ROOT_RECORD_NUMBER: u64 = 5;

} // verus!
