//! What is said of a volume, its directories and its files.

use fs_ntfs::dir::{listed_parent, DirCursor, DirStep, IndexItem};
use fs_ntfs::facade::{Error, FileType, Filesystem, ListedEntry, RecordStat, VolumeNumbers};
use fs_ntfs::last_error::{infer_errno_from_message, set_error, LastError};
use fs_ntfs::reparse::{decode_link_target, readlink_bytes, reparse_parts};
use fs_ntfs::replies::{
    names_reply, object_id_reply, read_refusal, refuse_change, reparse_code, standard_info_reply,
    volume_info_reply, volume_info_v2_reply, MountKind, ObjectIds, StandardInfo, StandardInfoV3,
    VolumeFacts,
};
use fs_ntfs::stat::{fill_attr, SeenAttribute, FT_DIR, FT_JUNCTION, FT_REG_FILE, FT_SYMLINK};
use fs_ntfs::time::ntfs_time_to_unix;

const EPOCH: u64 = 11_644_473_600 * 10_000_000;

fn fs() -> Filesystem {
    Filesystem {
        image: "v.img".to_string(),
    }
}

fn plain_stat(is_dir: bool) -> RecordStat {
    RecordStat {
        size: 77,
        is_dir,
        link_count: 3,
        file_attributes: 0x20,
        created_nt: EPOCH + 10_000_000,
        modified_nt: EPOCH + 20_000_001,
        accessed_nt: EPOCH - 1,
        mft_modified_nt: EPOCH,
    }
}

fn message(e: Error) -> String {
    e.text().to_string()
}

// --- files ---

#[test]
fn a_file_is_what_was_read_of_it() {
    assert_eq!(fs().image_path(), "v.img");
    let a = fs()
        .stat(Ok(64), Ok(plain_stat(false)), Err("none".to_string()))
        .unwrap();
    assert_eq!((a.file_record_number, a.size, a.link_count), (64, 77, 3));
    assert_eq!((a.crtime_sec, a.crtime_nsec), (1, 0));
    assert_eq!((a.mtime_sec, a.mtime_nsec), (2, 100));
    assert_eq!((a.atime_sec, a.atime_nsec), (-1, 999_999_900));
    assert_eq!((a.ctime_sec, a.ctime_nsec), (0, 0));
    assert_eq!((a.file_type, a.mode), (FileType::Regular, 0o100644));
}

#[test]
fn a_reparse_point_decides_the_type_by_its_tag() {
    let with = |tag: u32, is_dir| {
        let a = fs()
            .stat(Ok(64), Ok(plain_stat(is_dir)), Ok(tag.to_le_bytes().to_vec()))
            .unwrap();
        (a.file_type, a.mode)
    };
    assert_eq!(with(0xA000_000C, false), (FileType::Symlink, 0o120777));
    assert_eq!(with(0xA000_0003, true), (FileType::Junction, 0o40755));
    assert_eq!(with(0x8000_0017, false), (FileType::Regular, 0o100644));
    let a = fs()
        .stat(Ok(64), Ok(plain_stat(true)), Ok(vec![0x0C, 0, 0]))
        .unwrap();
    assert_eq!(a.file_type, FileType::Directory);
}

#[test]
fn what_could_not_be_read_is_told() {
    let e = fs().stat(Err("resolve".to_string()), Ok(plain_stat(false)), Ok(vec![]));
    assert_eq!(message(e.unwrap_err()), "resolve");
    let e = fs().stat(Ok(1), Err("record".to_string()), Ok(vec![]));
    assert_eq!(message(e.unwrap_err()), "record");
    assert_eq!(message(Error::from("x".to_string())), "x");
}

#[test]
fn attributes_are_noted_in_their_order() {
    let a = fill_attr(
        64,
        1,
        false,
        &[
            SeenAttribute::StandardInformation {
                creation: EPOCH + 10_000_000,
                modification: EPOCH + 20_000_000,
                access: EPOCH + 30_000_000,
                record_modification: EPOCH + 40_000_005,
                attributes: 0x20,
            },
            SeenAttribute::Data {
                unnamed: false,
                length: 9,
            },
            SeenAttribute::Data {
                unnamed: true,
                length: 1000,
            },
            SeenAttribute::Other,
        ],
    );
    assert_eq!((a.file_record_number, a.link_count, a.size), (64, 1, 1000));
    assert_eq!(
        (a.crtime_sec, a.mtime_sec, a.atime_sec, a.ctime_sec),
        (1, 2, 3, 4)
    );
    assert_eq!((a.ctime_nsec, a.attributes), (500, 0x20));
    assert_eq!((a.file_type, a.mode), (FT_REG_FILE, 0o100644));
}

#[test]
fn a_link_is_known_by_its_tag() {
    let of = |is_dir, tag| {
        let a = fill_attr(9, 1, is_dir, &[SeenAttribute::ReparsePoint { tag }]);
        (a.file_type, a.mode)
    };
    assert_eq!(of(false, Some(0xA000_000C)), (FT_SYMLINK, 0o120777));
    assert_eq!(of(true, Some(0xA000_0003)), (FT_JUNCTION, 0o40755));
    assert_eq!(of(true, Some(0x8000_0017)), (FT_DIR, 0o40755));
    assert_eq!(of(false, None), (FT_REG_FILE, 0o100644));
}

#[test]
fn times_go_back_to_ticks() {
    for ticks in [0, 1, EPOCH - 1, EPOCH, EPOCH + 123_456_789, u64::MAX] {
        let (sec, nsec) = ntfs_time_to_unix(ticks);
        let back = (sec as i128 + 11_644_473_600) * 10_000_000 + nsec as i128 / 100;
        assert_eq!(back, ticks as i128);
    }
}

#[test]
fn reading_copies_what_fits() {
    let mut buf = [9u8; 4];
    assert_eq!(fs().read_file(Ok(vec![1, 2]), &mut buf).unwrap(), 2);
    assert_eq!(buf, [1, 2, 9, 9]);
    assert_eq!(fs().read_file(Ok(vec![5; 6]), &mut buf).unwrap(), 4);
    assert_eq!(buf, [5; 4]);
    let e = fs().read_file(Err("no".to_string()), &mut buf);
    assert_eq!(message(e.unwrap_err()), "no");
}

#[test]
fn data_that_is_not_as_it_stands_is_not_read() {
    assert_eq!(read_refusal(0, None), None);
    assert_eq!(read_refusal(0x8000, Some(0xA000_000C)), None);
    assert_eq!(
        read_refusal(0x4001, None).unwrap(),
        "file is compressed (LZNT1); decompression not yet supported"
    );
    assert_eq!(
        read_refusal(0x4000, None).unwrap(),
        "file is encrypted ($EFS); decryption not supported"
    );
    assert_eq!(
        read_refusal(0, Some(0x8000_0017)).unwrap(),
        "file is WOF-compressed (IO_REPARSE_TAG_WOF); decompression not yet supported"
    );
}

// --- directories ---

#[test]
fn a_listing_begins_with_the_directory_and_its_parent() {
    let entries = vec![ListedEntry {
        record_number: 70,
        is_dir: true,
        name: "sub".to_string(),
    }];
    let v = fs()
        .read_dir(Ok(40), Ok(39), Ok(entries.clone()))
        .unwrap();
    let got: Vec<(u64, &str)> = v
        .iter()
        .map(|e| (e.file_record_number, e.name.as_str()))
        .collect();
    assert_eq!(got, vec![(40, "."), (39, ".."), (70, "sub")]);
    assert_eq!(v[2].file_type, FileType::Directory);
    let v = fs().read_dir(Ok(5), Ok(39), Ok(entries)).unwrap();
    assert_eq!(v[1].file_record_number, 5, "the root is its own parent");
    assert_eq!(listed_parent(40, Err("lost".to_string())), 40);
    let e = fs().read_dir(Ok(5), Ok(5), Err("index".to_string()));
    assert_eq!(message(e.unwrap_err()), "index");
}

#[test]
fn a_cursor_goes_through_a_directory() {
    let item = |name: &str, dos_only| IndexItem::Entry {
        record: 64,
        is_directory: false,
        dos_only,
        name: name.as_bytes().to_vec(),
    };
    let mut c = DirCursor::new();
    assert!(matches!(c.advance(), DirStep::Dot));
    assert!(matches!(c.advance(), DirStep::DotDot));
    assert!(matches!(c.advance(), DirStep::Fetch));
    assert!(matches!(c.accept(IndexItem::Unreadable), DirStep::Fetch));
    assert!(matches!(c.accept(item("LONGNA~1", true)), DirStep::Fetch));
    match c.accept(item("long name", false)) {
        DirStep::Emit(d) => {
            assert_eq!((d.file_record_number, d.file_type, d.name_len), (64, 1, 9));
            assert_eq!(&d.name[..10], b"long name\0");
        }
        _ => panic!("an entry is given"),
    }
    assert_eq!(c.skipped, 1, "a short name is not a loss");
    assert!(matches!(c.advance(), DirStep::Fetch));
    assert!(matches!(c.accept(IndexItem::End), DirStep::Done));
    assert!(matches!(c.advance(), DirStep::Done));
}

// --- links ---

fn reparse(tag: u32, data: &[u8]) -> Vec<u8> {
    let mut v = tag.to_le_bytes().to_vec();
    v.extend_from_slice(&(data.len() as u16).to_le_bytes());
    v.extend_from_slice(&[0, 0]);
    v.extend_from_slice(data);
    v
}

fn mount_point(name: &str) -> Vec<u8> {
    let units: Vec<u8> = name.encode_utf16().flat_map(|c| c.to_le_bytes()).collect();
    let mut d = vec![0u8; 8];
    d[6..8].copy_from_slice(&(units.len() as u16).to_le_bytes());
    d.extend_from_slice(&units);
    d
}

#[test]
fn a_link_target_has_no_object_manager_prefix() {
    let v = reparse(0xA000_0003, &mount_point("\\??\\C:\\dir"));
    assert_eq!(decode_link_target(&v).unwrap(), "C:\\dir");
    assert_eq!(readlink_bytes(Some(v.clone()), 7).unwrap(), b"C:\\dir"[..6].to_vec());
    assert_eq!(
        readlink_bytes(Some(v), 6).unwrap_err(),
        "readlink: buffer too small (need 7, have 6)"
    );
}

#[test]
fn what_is_no_link_has_no_target() {
    assert_eq!(readlink_bytes(None, 100).unwrap_err(), "not a reparse point");
    assert_eq!(
        decode_link_target(&[0; 7]).unwrap_err(),
        "reparse data too short"
    );
    let mut v = reparse(0xA000_0003, &mount_point("x"));
    v[4] = 200;
    assert_eq!(
        decode_link_target(&v).unwrap_err(),
        "reparse data_length runs past attribute value"
    );
    assert_eq!(
        decode_link_target(&reparse(0x1D, &[])).unwrap_err(),
        "unsupported reparse tag 0x0000001d"
    );
    assert_eq!(
        decode_link_target(&reparse(0xA000_000C, &[0; 12])).unwrap_err(),
        "reparse print name is empty"
    );
}

#[test]
fn a_reparse_point_has_a_tag_and_data() {
    let mut v = reparse(0x8000_0017, b"wof");
    v.push(9);
    assert_eq!(reparse_parts(&v).unwrap(), (0x8000_0017, b"wof".to_vec()));
    assert!(reparse_parts(&v[..10]).is_err());
}

// --- answers of a fixed shape ---

#[test]
fn names_are_packed_or_their_size_is_told() {
    let names = vec![b"ab".to_vec(), b"c".to_vec()];
    let r = names_reply(&names, 5);
    assert_eq!((r.code, r.total, r.bytes), (2, 5, b"ab\0c\0".to_vec()));
    let r = names_reply(&names, 4);
    assert_eq!((r.code, r.total, r.bytes), (-2, 5, Vec::new()));
    assert_eq!(names_reply(&[], 0).code, 0);
}

#[test]
fn a_reparse_point_fits_or_does_not() {
    assert_eq!(reparse_code(None, 10), 0);
    assert_eq!(reparse_code(Some(10), 10), 1);
    assert_eq!(reparse_code(Some(11), 10), 2);
}

#[test]
fn object_ids_go_with_the_room() {
    let ids = ObjectIds {
        object_id: [1; 16],
        birth_ids: Some(([2; 16], [3; 16], [4; 16])),
    };
    let all = object_id_reply(&ids, 64).unwrap();
    assert_eq!(all.len(), 64);
    assert_eq!((all[0], all[16], all[32], all[48]), (1, 2, 3, 4));
    assert_eq!(object_id_reply(&ids, 63).unwrap(), vec![1; 16]);
    assert_eq!(
        object_id_reply(&ids, 15).unwrap_err(),
        "fs_ntfs_read_object_id_extended: out_buf_len < 16"
    );
}

#[test]
fn standard_information_has_two_forms() {
    let mut si = StandardInfo {
        creation_time: 1,
        modification_time: 2,
        mft_modification_time: 3,
        access_time: 4,
        file_attributes: 5,
        maximum_versions: 6,
        version_number: 7,
        class_id: 8,
        v3: None,
    };
    let r = standard_info_reply(&si);
    assert_eq!((r.creation_time, r.class_id, r.owner_id, r.has_v3), (1, 8, 0, 0));
    si.v3 = Some(StandardInfoV3 {
        owner_id: 9,
        security_id: 10,
        quota: 11,
        usn: 12,
    });
    let r = standard_info_reply(&si);
    assert_eq!((r.owner_id, r.security_id, r.quota, r.usn, r.has_v3), (9, 10, 11, 12, 1));
}

fn facts(name: Option<Vec<u8>>, information: Option<(u8, u8, u16)>) -> VolumeFacts {
    VolumeFacts {
        cluster_size: 4096,
        size: 10 * 4096 + 512,
        serial_number: 0xABCD,
        file_record_size: 1024,
        sector_size: 512,
        name,
        information,
    }
}

#[test]
fn a_volume_is_told_in_both_forms() {
    let r = volume_info_reply(&facts(Some(b"DATA".to_vec()), Some((3, 1, 0))), (7, 8));
    assert_eq!((r.cluster_size, r.total_clusters, r.total_size), (4096, 10, 41472));
    assert_eq!((r.ntfs_version_major, r.ntfs_version_minor), (3, 1));
    assert_eq!(&r.volume_name[..5], b"DATA\0");
    let r = volume_info_reply(&facts(None, None), (7, 8));
    assert_eq!((r.ntfs_version_major, r.ntfs_version_minor), (7, 8));
    let r = volume_info_v2_reply(&facts(Some(vec![b'x'; 200]), Some((3, 1, 0x4001))));
    assert_eq!((r.volume_name[126], r.volume_name[127]), (b'x', 0));
    assert_eq!((r.volume_flags, r.is_dirty), (0x4001, 1));
    assert_eq!((r.mft_record_size, r.bytes_per_sector), (1024, 512));
    let r = volume_info_v2_reply(&facts(None, None));
    assert_eq!((r.ntfs_version_major, r.volume_flags, r.is_dirty), (0, 0, 0));
}

#[test]
fn the_facade_tells_of_a_volume() {
    let numbers = VolumeNumbers {
        cluster_size: 512,
        size: 5120,
        serial_number: 7,
    };
    let i = fs().volume_info(numbers, Ok((1, 2))).unwrap();
    assert_eq!((i.total_clusters, i.ntfs_version_major, i.ntfs_version_minor), (10, 1, 2));
    assert_eq!((i.volume_name.as_str(), i.serial_number), ("", 7));
    let e = fs().volume_info(numbers, Err("gone".to_string()));
    assert_eq!(message(e.unwrap_err()), "read $VOLUME_INFORMATION: gone");
    let s = fs().volume_stats(Ok((100, 40)), Ok((64, 8)), Ok(true)).unwrap();
    assert_eq!((s.total_clusters, s.free_clusters), (100, 40));
    assert_eq!((s.mft_total_records, s.mft_free_records, s.dirty), (64, 8, true));
    let e = fs().volume_stats(Ok((1, 1)), Err("mft".to_string()), Err("d".to_string()));
    assert_eq!(message(e.unwrap_err()), "mft");
}

#[test]
fn some_mounts_take_no_changes() {
    assert_eq!(refuse_change(MountKind::Path), None);
    assert_eq!(refuse_change(MountKind::Callbacks { can_write: true }), None);
    assert_eq!(
        refuse_change(MountKind::Callbacks { can_write: false }).unwrap(),
        "handle mounted read-only via callbacks (cfg.write was NULL)"
    );
    assert_eq!(refuse_change(MountKind::Device { writable: true }), None);
    assert_eq!(
        refuse_change(MountKind::Device { writable: false }).unwrap(),
        "handle mounted read-only via fs_core device (is_writable=false)"
    );
    assert_eq!(
        refuse_change(MountKind::Unknown).unwrap(),
        "handle has no recorded mount source"
    );
}

// --- errors ---

#[test]
fn a_message_with_a_zero_is_not_kept() {
    let mut last = LastError::new();
    set_error(&mut last, "not found: a\0b");
    assert_eq!((last.message.as_str(), last.errno), ("unknown", 2));
    set_error(&mut last, "volume is full");
    assert_eq!((last.message.as_str(), last.errno), ("volume is full", 28));
    assert_ne!(infer_errno_from_message("whatever"), 0);
}
