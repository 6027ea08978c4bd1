//! The volume as programs see it: names as strings, times in seconds, types as
//! enums.

use vstd::prelude::*;

use crate::bytes;
use crate::bytes::get_u32;
use crate::dir::listed_parent;
use crate::dir::ROOT_RECORD_NUMBER;
use crate::reparse::{REPARSE_TAG_MOUNT_POINT, REPARSE_TAG_SYMLINK};
use crate::stat::{MODE_DIR, MODE_LINK, MODE_REG};
use crate::time;
use crate::time::ntfs_time_to_unix;

verus! {

/// What went wrong, in words.
#[derive(Debug, Clone)]
pub struct Error(pub String);

impl From<String> for Error {
    fn from(s: String) -> (e: Self) {
        Error(s)
    }
}

impl vstd::std_specs::convert::FromSpecImpl<String> for Error {
    open spec fn obeys_from_spec() -> bool {
        true
    }

    open spec fn from_spec(s: String) -> Self {
        Error(s)
    }
}

impl Error {
    /// The words.
    pub fn text(&self) -> (s: &str)
        ensures
            s@ == self.0@,
    {
        self.0.as_str()
    }
}

#[derive(Debug, Clone, Copy, PartialEq, Eq, Structural)]
pub enum FileType {
    Regular,
    Directory,
    Symlink,
    Junction,
    Other,
}

/// What is known of a file.
#[derive(Debug, Clone, Copy)]
pub struct Attr {
    pub file_record_number: u64,
    pub size: u64,
    pub atime_sec: i64,
    pub mtime_sec: i64,
    pub ctime_sec: i64,
    pub crtime_sec: i64,
    pub atime_nsec: u32,
    pub mtime_nsec: u32,
    pub ctime_nsec: u32,
    pub crtime_nsec: u32,
    pub mode: u16,
    pub link_count: u16,
    pub file_type: FileType,
    pub attributes: u32,
}

/// An entry of a directory.
#[derive(Debug, Clone)]
pub struct DirEntry {
    pub file_record_number: u64,
    pub file_type: FileType,
    pub name: String,
}

#[derive(Debug, Clone)]
pub struct VolumeInfo {
    pub volume_name: String,
    pub cluster_size: u32,
    pub total_clusters: u64,
    pub ntfs_version_major: u16,
    pub ntfs_version_minor: u16,
    pub serial_number: u64,
    pub total_size: u64,
}

#[derive(Debug, Clone, Copy)]
pub struct VolumeStats {
    pub total_clusters: u64,
    pub free_clusters: u64,
    pub mft_total_records: u64,
    pub mft_free_records: u64,
    pub dirty: bool,
}

/// What was read of a file. Times are in ticks.
#[derive(Debug, Clone, Copy)]
pub struct RecordStat {
    pub size: u64,
    pub is_dir: bool,
    pub link_count: u16,
    pub file_attributes: u32,
    pub created_nt: u64,
    pub modified_nt: u64,
    pub accessed_nt: u64,
    pub mft_modified_nt: u64,
}

/// An entry of a directory's index.
#[derive(Debug, Clone)]
pub struct ListedEntry {
    pub record_number: u64,
    pub is_dir: bool,
    pub name: String,
}

/// A time in ticks as seconds since 1970 and nanoseconds since then.
fn nt_parts(nt: u64) -> (t: (i64, u32))
    ensures
        (t.0 as int, t.1 as int) == time::unix_time(nt),
{
    ntfs_time_to_unix(nt)
}

/// The type of a file by the value of its reparse point, where it has one; `plain`
/// where that is none of a link.
pub open spec fn type_by_reparse(plain: FileType, reparse: Result<Vec<u8>, String>) -> FileType {
    match reparse {
        Ok(rp) => if rp@.len() < 4 {
            plain
        } else if bytes::le32(rp@, 0) == REPARSE_TAG_SYMLINK {
            FileType::Symlink
        } else if bytes::le32(rp@, 0) == REPARSE_TAG_MOUNT_POINT {
            FileType::Junction
        } else {
            plain
        },
        Err(_) => plain,
    }
}

/// `a` says what was read of the file with the record number.
pub open spec fn is_attr(
    a: Attr,
    record: u64,
    st: RecordStat,
    reparse: Result<Vec<u8>, String>,
) -> bool {
    let plain = if st.is_dir {
        FileType::Directory
    } else {
        FileType::Regular
    };
    &&& a.file_record_number == record
    &&& a.size == st.size
    &&& (a.crtime_sec as int, a.crtime_nsec as int) == time::unix_time(st.created_nt)
    &&& (a.mtime_sec as int, a.mtime_nsec as int) == time::unix_time(st.modified_nt)
    &&& (a.atime_sec as int, a.atime_nsec as int) == time::unix_time(st.accessed_nt)
    &&& (a.ctime_sec as int, a.ctime_nsec as int) == time::unix_time(st.mft_modified_nt)
    &&& a.link_count == st.link_count
    &&& a.attributes == st.file_attributes
    &&& a.file_type == type_by_reparse(plain, reparse)
    &&& a.mode == if a.file_type == FileType::Symlink {
        MODE_LINK
    } else if st.is_dir {
        MODE_DIR
    } else {
        MODE_REG
    }
}

/// What was read of a volume.
#[derive(Debug, Clone, Copy)]
pub struct VolumeNumbers {
    pub cluster_size: u32,
    pub size: u64,
    pub serial_number: u64,
}

/// A volume under the path of what holds it.
#[derive(Debug)]
pub struct Filesystem {
    pub image: String,
}

/// The type of an entry of a directory's index.
pub open spec fn type_of_entry(is_dir: bool) -> FileType {
    if is_dir {
        FileType::Directory
    } else {
        FileType::Regular
    }
}

/// Entry `d` is the listed entry `e`.
pub open spec fn is_entry(d: DirEntry, e: ListedEntry) -> bool {
    &&& d.file_record_number == e.record_number
    &&& d.file_type == type_of_entry(e.is_dir)
    &&& d.name@ == e.name@
}

/// The listing of a directory: itself, its parent, and its entries.
pub open spec fn is_listing(
    list: Seq<DirEntry>,
    record: u64,
    parent: u64,
    entries: Seq<ListedEntry>,
) -> bool {
    &&& list.len() == entries.len() + 2
    &&& list[0].file_record_number == record
    &&& list[0].file_type == FileType::Directory
    &&& list[0].name@ == "."@
    &&& list[1].file_record_number == parent
    &&& list[1].file_type == FileType::Directory
    &&& list[1].name@ == ".."@
    &&& forall|i: int| 0 <= i < entries.len() ==> is_entry(#[trigger] list[i + 2], entries[i])
}

impl Filesystem {
    /// The path of what holds the volume.
    pub fn image_path(&self) -> (p: &str)
        ensures
            p@ == self.image@,
    {
        self.image.as_str()
    }

    /// What is known of a file, given what resolving its path, reading it and
    /// reading its reparse point gave. Without a reparse point, or with one that
    /// is not that of a link, it is a file or a directory.
    pub fn stat(
        &self,
        record: Result<u64, String>,
        st: Result<RecordStat, String>,
        reparse: Result<Vec<u8>, String>,
    ) -> (res: Result<Attr, Error>)
        ensures
            match (record, st) {
                (Err(e), _) => res matches Err(m) && m.0@ == e@,
                (_, Err(e)) => res matches Err(m) && m.0@ == e@,
                (Ok(r), Ok(s)) => res matches Ok(a) && is_attr(a, r, s, reparse),
            },
    {
        let record: u64 = match record {
            Ok(r) => r,
            Err(e) => {
                return Err(Error(e));
            },
        };
        let st: RecordStat = match st {
            Ok(s) => s,
            Err(e) => {
                return Err(Error(e));
            },
        };
        let cr: (i64, u32) = nt_parts(st.created_nt);
        let m: (i64, u32) = nt_parts(st.modified_nt);
        let a: (i64, u32) = nt_parts(st.accessed_nt);
        let c: (i64, u32) = nt_parts(st.mft_modified_nt);
        let mut file_type: FileType = if st.is_dir {
            FileType::Directory
        } else {
            FileType::Regular
        };
        let mut mode: u16 = if st.is_dir {
            MODE_DIR
        } else {
            MODE_REG
        };
        match reparse {
            Ok(rp) => {
                if rp.len() >= 4 {
                    let tag: u32 = get_u32(rp.as_slice(), 0);
                    if tag == REPARSE_TAG_SYMLINK {
                        file_type = FileType::Symlink;
                        mode = MODE_LINK;
                    } else if tag == REPARSE_TAG_MOUNT_POINT {
                        file_type = FileType::Junction;
                    }
                }
            },
            Err(_) => {},
        }
        Ok(
            Attr {
                file_record_number: record,
                size: st.size,
                atime_sec: a.0,
                mtime_sec: m.0,
                ctime_sec: c.0,
                crtime_sec: cr.0,
                atime_nsec: a.1,
                mtime_nsec: m.1,
                ctime_nsec: c.1,
                crtime_nsec: cr.1,
                mode,
                link_count: st.link_count,
                file_type,
                attributes: st.file_attributes,
            },
        )
    }

    /// The entries of a directory, given what resolving its path, looking for its
    /// parent and reading its index gave.
    pub fn read_dir(
        &self,
        record: Result<u64, String>,
        parent: Result<u64, String>,
        entries: Result<Vec<ListedEntry>, String>,
    ) -> (res: Result<Vec<DirEntry>, Error>)
        ensures
            match (record, entries) {
                (Err(e), _) => res matches Err(m) && m.0@ == e@,
                (_, Err(e)) => res matches Err(m) && m.0@ == e@,
                (Ok(r), Ok(list)) => res matches Ok(v) && is_listing(
                    v@,
                    r,
                    if r == ROOT_RECORD_NUMBER {
                        r
                    } else {
                        match parent {
                            Ok(p) => p,
                            Err(_) => r,
                        }
                    },
                    list@,
                ),
            },
    {
        let record: u64 = match record {
            Ok(r) => r,
            Err(e) => {
                return Err(Error(e));
            },
        };
        let entries: Vec<ListedEntry> = match entries {
            Ok(v) => v,
            Err(e) => {
                return Err(Error(e));
            },
        };
        let parent: u64 = listed_parent(record, parent);
        let mut out: Vec<DirEntry> = Vec::new();
        out.push(
            DirEntry {
                file_record_number: record,
                file_type: FileType::Directory,
                name: ".".to_owned(),
            },
        );
        out.push(
            DirEntry {
                file_record_number: parent,
                file_type: FileType::Directory,
                name: "..".to_owned(),
            },
        );
        let mut i: usize = 0;
        while i < entries.len()
            invariant
                i <= entries@.len(),
                is_listing(out@, record, parent, entries@.take(i as int)),
            decreases entries.len() - i,
        {
            let e: &ListedEntry = &entries[i];
            let file_type: FileType = if e.is_dir {
                FileType::Directory
            } else {
                FileType::Regular
            };
            let ghost had = out@;
            out.push(
                DirEntry {
                    file_record_number: e.record_number,
                    file_type,
                    name: e.name.clone(),
                },
            );
            proof {
                let more = entries@.take(i + 1);
                assert forall|k: int| 0 <= k < more.len() implies is_entry(
                    #[trigger] out@[k + 2],
                    more[k],
                ) by {
                    if k < i {
                        assert(out@[k + 2] == had[k + 2]);
                        assert(entries@.take(i as int)[k] == more[k]);
                    }
                }
            }
            i = i + 1;
        }
        proof {
            assert(entries@.take(entries@.len() as int) =~= entries@);
        }
        Ok(out)
    }

    /// Copies what was read of a file to a caller's buffer, as much of it as fits.
    pub fn read_file(&self, data: Result<Vec<u8>, String>, buf: &mut [u8]) -> (res: Result<
        usize,
        Error,
    >)
        ensures
            final(buf)@.len() == old(buf)@.len(),
            match data {
                Err(e) => (res matches Err(m) && m.0@ == e@) && final(buf)@ == old(buf)@,
                Ok(d) => {
                    &&& res matches Ok(n) && n == if d@.len() <= old(buf)@.len() {
                        d@.len()
                    } else {
                        old(buf)@.len()
                    }
                    &&& forall|i: int|
                        0 <= i < old(buf)@.len() ==> #[trigger] final(buf)@[i] == if i < d@.len() {
                            d@[i]
                        } else {
                            old(buf)@[i]
                        }
                },
            },
    {
        let data: Vec<u8> = match data {
            Ok(d) => d,
            Err(e) => {
                return Err(Error(e));
            },
        };
        let room: usize = buf.len();
        let n: usize = if data.len() < room {
            data.len()
        } else {
            room
        };
        let mut i: usize = 0;
        while i < n
            invariant
                room == buf@.len(),
                room == old(buf)@.len(),
                n <= data@.len(),
                n <= room,
                i <= n,
                forall|k: int|
                    0 <= k < room ==> #[trigger] buf@[k] == if k < i {
                        data@[k]
                    } else {
                        old(buf)@[k]
                    },
            decreases n - i,
        {
            buf[i] = data[i];
            i = i + 1;
        }
        Ok(n)
    }

    /// What is known of a volume, given what its boot sector says and the version
    /// that was read. The name is not looked for.
    pub fn volume_info(
        &self,
        numbers: VolumeNumbers,
        version: Result<(u8, u8), String>,
    ) -> (res: Result<VolumeInfo, Error>)
        requires
            numbers.cluster_size > 0,
        ensures
            match version {
                Err(e) => res matches Err(m) && m.0@ == "read $VOLUME_INFORMATION: "@ + e@,
                Ok((major, minor)) => {
                    &&& res is Ok
                    &&& res->Ok_0.volume_name@ == ""@
                    &&& res->Ok_0.cluster_size == numbers.cluster_size
                    &&& res->Ok_0.total_clusters == numbers.size / (numbers.cluster_size as u64)
                    &&& res->Ok_0.ntfs_version_major == major
                    &&& res->Ok_0.ntfs_version_minor == minor
                    &&& res->Ok_0.serial_number == numbers.serial_number
                    &&& res->Ok_0.total_size == numbers.size
                },
            },
    {
        let (major, minor) = match version {
            Ok((major, minor)) => (major, minor),
            Err(e) => {
                return Err(
                    Error("read $VOLUME_INFORMATION: ".to_owned().concat(e.as_str())),
                );
            },
        };
        Ok(
            VolumeInfo {
                volume_name: "".to_owned(),
                cluster_size: numbers.cluster_size,
                total_clusters: numbers.size / numbers.cluster_size as u64,
                ntfs_version_major: major as u16,
                ntfs_version_minor: minor as u16,
                serial_number: numbers.serial_number,
                total_size: numbers.size,
            },
        )
    }

    /// The numbers of a volume, given what counting its clusters, counting its
    /// file records and looking at its dirty flag gave. Each pair is the total and
    /// what is free of it.
    pub fn volume_stats(
        &self,
        clusters: Result<(u64, u64), String>,
        records: Result<(u64, u64), String>,
        dirty: Result<bool, String>,
    ) -> (res: Result<VolumeStats, Error>)
        ensures
            match (clusters, records, dirty) {
                (Err(e), _, _) => res matches Err(m) && m.0@ == e@,
                (_, Err(e), _) => res matches Err(m) && m.0@ == e@,
                (_, _, Err(e)) => res matches Err(m) && m.0@ == e@,
                (Ok((total, free)), Ok((all, unused)), Ok(d)) => res == Ok::<VolumeStats, Error>(
                    VolumeStats {
                        total_clusters: total,
                        free_clusters: free,
                        mft_total_records: all,
                        mft_free_records: unused,
                        dirty: d,
                    },
                ),
            },
    {
        let (total_clusters, free_clusters) = match clusters {
            Ok((t, f)) => (t, f),
            Err(e) => {
                return Err(Error(e));
            },
        };
        let (mft_total_records, mft_free_records) = match records {
            Ok((t, f)) => (t, f),
            Err(e) => {
                return Err(Error(e));
            },
        };
        let dirty: bool = match dirty {
            Ok(d) => d,
            Err(e) => {
                return Err(Error(e));
            },
        };
        Ok(
            VolumeStats {
                total_clusters,
                free_clusters,
                mft_total_records,
                mft_free_records,
                dirty,
            },
        )
    }
}

} // verus!
