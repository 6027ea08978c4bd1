//! What callers without growing buffers are answered: records of a fixed shape,
//! lists packed into one buffer, and codes that say whether there was room.

use vstd::prelude::*;

use ntfs::NtfsAttributeFlags;

use crate::reparse::REPARSE_TAG_WOF;

verus! {

/// `ntfs::NtfsAttributeFlags::from_bits_truncate` and `contains`: whether
/// `COMPRESSED` is among the flags. The crate defines it as `0x0001`.
#[verifier::external_body]
fn is_compressed(flags: u16) -> (b: bool)
    ensures
        b == (flags % 2 == 1),
{
    NtfsAttributeFlags::from_bits_truncate(flags).contains(NtfsAttributeFlags::COMPRESSED)
}

/// `ntfs::NtfsAttributeFlags::from_bits_truncate` and `contains`: whether
/// `ENCRYPTED` is among the flags. The crate defines it as `0x4000`.
#[verifier::external_body]
fn is_encrypted(flags: u16) -> (b: bool)
    ensures
        b == (flags / 0x4000 % 2 == 1),
{
    NtfsAttributeFlags::from_bits_truncate(flags).contains(NtfsAttributeFlags::ENCRYPTED)
}

/// Why the data of a file cannot be read as it is, if it cannot, by the flags of
/// its data attribute and the tag of its reparse point.
pub open spec fn refusal(flags: u16, tag: Option<u32>) -> Option<Seq<char>> {
    if flags % 2 == 1 {
        Some("file is compressed (LZNT1); decompression not yet supported"@)
    } else if flags / 0x4000 % 2 == 1 {
        Some("file is encrypted ($EFS); decryption not supported"@)
    } else if tag == Some(REPARSE_TAG_WOF) {
        Some(
            "file is WOF-compressed (IO_REPARSE_TAG_WOF); decompression not yet supported"@,
        )
    } else {
        None
    }
}

/// Why the data of a file cannot be read as it is, if it cannot.
pub fn read_refusal(flags: u16, tag: Option<u32>) -> (why: Option<String>)
    ensures
        match (why, refusal(flags, tag)) {
            (Some(m), Some(w)) => m@ == w,
            (None, None) => true,
            _ => false,
        },
{
    if is_compressed(flags) {
        return Some(
            "file is compressed (LZNT1); decompression not yet supported".to_owned(),
        );
    }
    if is_encrypted(flags) {
        return Some("file is encrypted ($EFS); decryption not supported".to_owned());
    }
    match tag {
        Some(t) => {
            if t == REPARSE_TAG_WOF {
                return Some(
                    "file is WOF-compressed (IO_REPARSE_TAG_WOF); decompression not yet supported".to_owned(),
                );
            }
        },
        None => {},
    }
    None
}

/// The first `n` names, each with a zero behind it.
pub open spec fn packed(names: Seq<Vec<u8>>, n: int) -> Seq<u8>
    decreases n,
{
    if n <= 0 {
        Seq::empty()
    } else {
        packed(names, n - 1) + names[n - 1]@ + seq![0u8]
    }
}

proof fn lemma_packed_grows(names: Seq<Vec<u8>>, i: int, n: int)
    requires
        0 <= i <= n,
    ensures
        packed(names, i).len() <= packed(names, n).len(),
        i < n ==> packed(names, i).len() + names[i]@.len() + 1 <= packed(names, n).len(),
    decreases n,
{
    if i < n {
        lemma_packed_grows(names, i, n - 1);
    }
}

/// The answer to a request for a list of names.
pub struct NamesReply {
    /// The number of names, or -2 where the buffer is too small for them.
    pub code: i32,
    /// The bytes that all of them take.
    pub total: usize,
    /// The names, each with a zero behind it; nothing where they do not fit.
    pub bytes: Vec<u8>,
}

/// Packs a list of names for a buffer of `capacity` bytes. The size that they
/// take is told whether they fit or not.
pub fn names_reply(names: &[Vec<u8>], capacity: usize) -> (r: NamesReply)
    requires
        packed(names@, names@.len() as int).len() <= usize::MAX,
        names@.len() <= i32::MAX,
    ensures
        ({
            let all = packed(names@, names@.len() as int);
            &&& r.total == all.len()
            &&& if all.len() > capacity {
                r.code == -2 && r.bytes@ == Seq::<u8>::empty()
            } else {
                r.code == names@.len() && r.bytes@ == all
            }
        }),
{
    let mut bytes: Vec<u8> = Vec::new();
    let mut i: usize = 0;
    while i < names.len()
        invariant
            packed(names@, names@.len() as int).len() <= usize::MAX,
            i <= names@.len(),
            bytes@ == packed(names@, i as int),
        decreases names.len() - i,
    {
        proof {
            lemma_packed_grows(names@, i as int, names@.len() as int);
        }
        let ghost had = bytes@;
        bytes.extend_from_slice(names[i].as_slice());
        bytes.push(0);
        proof {
            assert(bytes@ =~= had + names@[i as int]@ + seq![0u8]);
        }
        i = i + 1;
    }
    let total: usize = bytes.len();
    if total > capacity {
        NamesReply { code: -2, total, bytes: Vec::new() }
    } else {
        NamesReply { code: names.len() as i32, total, bytes }
    }
}

/// The code for a reparse point of which `length` bytes of data were asked for
/// with room for `capacity`: 0 where there is none, 1 where it fits, 2 where it
/// does not.
pub fn reparse_code(length: Option<usize>, capacity: usize) -> (code: i32)
    ensures
        code == match length {
            None => 0int,
            Some(n) => if n > capacity {
                2
            } else {
                1
            },
        },
{
    match length {
        None => 0,
        Some(n) => {
            if n > capacity {
                2
            } else {
                1
            }
        },
    }
}

/// An object identifier, and the three that tell of the file's birth where they
/// are there.
#[derive(Clone, Copy)]
pub struct ObjectIds {
    pub object_id: [u8; 16],
    pub birth_ids: Option<([u8; 16], [u8; 16], [u8; 16])>,
}

/// The bytes to answer a request for object identifiers with, where there is room
/// for `capacity`: the first alone, or all four where they are there and fit.
pub open spec fn object_id_bytes(ids: ObjectIds, capacity: int) -> Seq<u8> {
    match ids.birth_ids {
        Some((v, o, d)) => if capacity >= 64 {
            ids.object_id@ + v@ + o@ + d@
        } else {
            ids.object_id@
        },
        None => ids.object_id@,
    }
}

/// The bytes to answer a request for object identifiers with.
pub fn object_id_reply(ids: &ObjectIds, capacity: usize) -> (res: Result<Vec<u8>, String>)
    ensures
        match res {
            Ok(v) => capacity >= 16 && v@ == object_id_bytes(*ids, capacity as int),
            Err(m) => capacity < 16 && m@
                == "fs_ntfs_read_object_id_extended: out_buf_len < 16"@,
        },
{
    if capacity < 16 {
        return Err("fs_ntfs_read_object_id_extended: out_buf_len < 16".to_owned());
    }
    let mut out: Vec<u8> = Vec::new();
    out.extend_from_slice(ids.object_id.as_slice());
    proof {
        assert(out@ =~= ids.object_id@);
    }
    match &ids.birth_ids {
        Some((v, o, d)) => {
            if capacity >= 64 {
                out.extend_from_slice(v.as_slice());
                out.extend_from_slice(o.as_slice());
                out.extend_from_slice(d.as_slice());
                proof {
                    assert(out@ =~= ids.object_id@ + v@ + o@ + d@);
                }
            }
        },
        None => {},
    }
    Ok(out)
}

/// The part of `$STANDARD_INFORMATION` that only its longer form has.
#[derive(Debug, Clone, Copy)]
pub struct StandardInfoV3 {
    pub owner_id: u32,
    pub security_id: u32,
    pub quota: u64,
    pub usn: u64,
}

/// `$STANDARD_INFORMATION`, as it was read.
#[derive(Debug, Clone, Copy)]
pub struct StandardInfo {
    pub creation_time: u64,
    pub modification_time: u64,
    pub mft_modification_time: u64,
    pub access_time: u64,
    pub file_attributes: u32,
    pub maximum_versions: u32,
    pub version_number: u32,
    pub class_id: u32,
    pub v3: Option<StandardInfoV3>,
}

/// What a caller gets of `$STANDARD_INFORMATION`. Where it has the shorter form,
/// the fields that only the longer has are zero.
#[derive(Debug, Clone, Copy)]
pub struct FsNtfsStandardInfo {
    pub creation_time: u64,
    pub modification_time: u64,
    pub mft_modification_time: u64,
    pub access_time: u64,
    pub file_attributes: u32,
    pub maximum_versions: u32,
    pub version_number: u32,
    pub class_id: u32,
    pub owner_id: u32,
    pub security_id: u32,
    pub quota: u64,
    pub usn: u64,
    /// 1 where the longer form was there.
    pub has_v3: u8,
}

/// What a caller gets of `$STANDARD_INFORMATION`.
pub fn standard_info_reply(si: &StandardInfo) -> (r: FsNtfsStandardInfo)
    ensures
        r.creation_time == si.creation_time,
        r.modification_time == si.modification_time,
        r.mft_modification_time == si.mft_modification_time,
        r.access_time == si.access_time,
        r.file_attributes == si.file_attributes,
        r.maximum_versions == si.maximum_versions,
        r.version_number == si.version_number,
        r.class_id == si.class_id,
        match si.v3 {
            Some(v) => {
                &&& r.owner_id == v.owner_id
                &&& r.security_id == v.security_id
                &&& r.quota == v.quota
                &&& r.usn == v.usn
                &&& r.has_v3 == 1
            },
            None => {
                &&& r.owner_id == 0
                &&& r.security_id == 0
                &&& r.quota == 0
                &&& r.usn == 0
                &&& r.has_v3 == 0
            },
        },
{
    let (v3, has_v3) = match si.v3 {
        Some(v) => (v, 1u8),
        None => (StandardInfoV3 { owner_id: 0, security_id: 0, quota: 0, usn: 0 }, 0u8),
    };
    FsNtfsStandardInfo {
        creation_time: si.creation_time,
        modification_time: si.modification_time,
        mft_modification_time: si.mft_modification_time,
        access_time: si.access_time,
        file_attributes: si.file_attributes,
        maximum_versions: si.maximum_versions,
        version_number: si.version_number,
        class_id: si.class_id,
        owner_id: v3.owner_id,
        security_id: v3.security_id,
        quota: v3.quota,
        usn: v3.usn,
        has_v3,
    }
}

/// The room for a volume's name, a zero behind it included.
pub const VOLUME_NAME_BYTES: usize = 128;

/// What a caller gets of a volume.
pub struct FsNtfsVolumeInfo {
    pub volume_name: [u8; VOLUME_NAME_BYTES],
    pub cluster_size: u32,
    pub total_clusters: u64,
    pub ntfs_version_major: u16,
    pub ntfs_version_minor: u16,
    pub serial_number: u64,
    pub total_size: u64,
}

/// What a caller gets of a volume in the second form, which begins as the first.
pub struct FsNtfsVolumeInfoV2 {
    pub volume_name: [u8; VOLUME_NAME_BYTES],
    pub cluster_size: u32,
    pub total_clusters: u64,
    pub ntfs_version_major: u16,
    pub ntfs_version_minor: u16,
    pub serial_number: u64,
    pub total_size: u64,
    pub volume_flags: u16,
    /// 1 where the dirty flag is among the flags.
    pub is_dirty: u8,
    pub mft_record_size: u32,
    pub bytes_per_sector: u32,
}

/// What was read of a volume. The name is in UTF-8.
pub struct VolumeFacts {
    pub cluster_size: u32,
    pub size: u64,
    pub serial_number: u64,
    pub file_record_size: u32,
    pub sector_size: u16,
    pub name: Option<Vec<u8>>,
    /// The version and the flags, where they could be read.
    pub information: Option<(u8, u8, u16)>,
}

/// The field holds as much of the name as there is room for, and zeros behind it.
pub open spec fn holds_name(field: Seq<u8>, name: Option<Seq<u8>>) -> bool {
    let kept = match name {
        Some(n) => if n.len() <= VOLUME_NAME_BYTES - 1 {
            n
        } else {
            n.take(VOLUME_NAME_BYTES - 1)
        },
        None => Seq::empty(),
    };
    &&& field.len() == VOLUME_NAME_BYTES
    &&& forall|i: int|
        0 <= i < VOLUME_NAME_BYTES ==> #[trigger] field[i] == if i < kept.len() {
            kept[i]
        } else {
            0
        }
}

/// The name of a volume as its field holds it.
pub open spec fn name_of(facts: VolumeFacts) -> Option<Seq<u8>> {
    match facts.name {
        Some(n) => Some(n@),
        None => None,
    }
}

fn name_field(name: &Option<Vec<u8>>) -> (f: [u8; VOLUME_NAME_BYTES])
    ensures
        holds_name(
            f@,
            match *name {
                Some(n) => Some(n@),
                None => None,
            },
        ),
{
    let mut out: [u8; VOLUME_NAME_BYTES] = [0u8;VOLUME_NAME_BYTES];
    match name {
        None => {},
        Some(v) => {
            let n: usize = if v.len() < VOLUME_NAME_BYTES - 1 {
                v.len()
            } else {
                VOLUME_NAME_BYTES - 1
            };
            let mut i: usize = 0;
            while i < n
                invariant
                    n <= v@.len(),
                    n <= VOLUME_NAME_BYTES - 1,
                    i <= n,
                    out@.len() == VOLUME_NAME_BYTES,
                    forall|k: int| 0 <= k < i ==> #[trigger] out@[k] == v@[k],
                    forall|k: int| i <= k < VOLUME_NAME_BYTES ==> #[trigger] out@[k] == 0,
                decreases n - i,
            {
                out[i] = v[i];
                i = i + 1;
            }
        },
    }
    out
}

/// What a caller gets of a volume. `held` is the version that the caller's record
/// holds, which stays there where the volume's cannot be read.
pub fn volume_info_reply(facts: &VolumeFacts, held: (u16, u16)) -> (r: FsNtfsVolumeInfo)
    requires
        facts.cluster_size > 0,
    ensures
        holds_name(r.volume_name@, name_of(*facts)),
        r.cluster_size == facts.cluster_size,
        r.total_clusters == facts.size / (facts.cluster_size as u64),
        r.serial_number == facts.serial_number,
        r.total_size == facts.size,
        match facts.information {
            Some((major, minor, _)) => r.ntfs_version_major == major && r.ntfs_version_minor
                == minor,
            None => r.ntfs_version_major == held.0 && r.ntfs_version_minor == held.1,
        },
{
    let (major, minor) = match facts.information {
        Some((major, minor, _)) => (major as u16, minor as u16),
        None => held,
    };
    FsNtfsVolumeInfo {
        volume_name: name_field(&facts.name),
        cluster_size: facts.cluster_size,
        total_clusters: facts.size / facts.cluster_size as u64,
        ntfs_version_major: major,
        ntfs_version_minor: minor,
        serial_number: facts.serial_number,
        total_size: facts.size,
    }
}

/// What a caller gets of a volume in the second form, in which a version that
/// cannot be read is 0.0.
pub fn volume_info_v2_reply(facts: &VolumeFacts) -> (r: FsNtfsVolumeInfoV2)
    requires
        facts.cluster_size > 0,
    ensures
        holds_name(r.volume_name@, name_of(*facts)),
        r.cluster_size == facts.cluster_size,
        r.total_clusters == facts.size / (facts.cluster_size as u64),
        r.serial_number == facts.serial_number,
        r.total_size == facts.size,
        r.mft_record_size == facts.file_record_size,
        r.bytes_per_sector == facts.sector_size,
        match facts.information {
            Some((major, minor, flags)) => {
                &&& r.ntfs_version_major == major
                &&& r.ntfs_version_minor == minor
                &&& r.volume_flags == flags
                &&& r.is_dirty == flags % 2
            },
            None => {
                &&& r.ntfs_version_major == 0
                &&& r.ntfs_version_minor == 0
                &&& r.volume_flags == 0
                &&& r.is_dirty == 0
            },
        },
{
    let v1: FsNtfsVolumeInfo = volume_info_reply(facts, (0, 0));
    let flags: u16 = match facts.information {
        Some((_, _, flags)) => flags,
        None => 0,
    };
    FsNtfsVolumeInfoV2 {
        volume_name: v1.volume_name,
        cluster_size: v1.cluster_size,
        total_clusters: v1.total_clusters,
        ntfs_version_major: v1.ntfs_version_major,
        ntfs_version_minor: v1.ntfs_version_minor,
        serial_number: v1.serial_number,
        total_size: v1.total_size,
        volume_flags: flags,
        is_dirty: (flags % 2) as u8,
        mft_record_size: facts.file_record_size,
        bytes_per_sector: facts.sector_size as u32,
    }
}

/// What a mount was made from, as far as it decides whether the volume may be
/// changed.
#[derive(Debug, Clone, Copy)]
pub enum MountKind {
    /// A path, which is opened anew for each change.
    Path,
    /// A pair of callbacks, the second of which is for writes.
    Callbacks { can_write: bool },
    /// A device that is shared.
    Device { writable: bool },
    /// Nothing that was recorded.
    Unknown,
}

/// Why a volume that was mounted in this way may not be changed, if it may not.
pub open spec fn change_refusal(kind: MountKind) -> Option<Seq<char>> {
    match kind {
        MountKind::Path => None,
        MountKind::Callbacks { can_write } => if can_write {
            None
        } else {
            Some("handle mounted read-only via callbacks (cfg.write was NULL)"@)
        },
        MountKind::Device { writable } => if writable {
            None
        } else {
            Some("handle mounted read-only via fs_core device (is_writable=false)"@)
        },
        MountKind::Unknown => Some("handle has no recorded mount source"@),
    }
}

/// Why a volume that was mounted in this way may not be changed, if it may not.
pub fn refuse_change(kind: MountKind) -> (why: Option<String>)
    ensures
        match (why, change_refusal(kind)) {
            (Some(m), Some(w)) => m@ == w,
            (None, None) => true,
            _ => false,
        },
{
    match kind {
        MountKind::Path => None,
        MountKind::Callbacks { can_write } => {
            if can_write {
                None
            } else {
                Some("handle mounted read-only via callbacks (cfg.write was NULL)".to_owned())
            }
        },
        MountKind::Device { writable } => {
            if writable {
                None
            } else {
                Some(
                    "handle mounted read-only via fs_core device (is_writable=false)".to_owned(),
                )
            }
        },
        MountKind::Unknown => Some("handle has no recorded mount source".to_owned()),
    }
}

} // verus!
