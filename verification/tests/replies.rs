//! Replies to a caller: errors, link targets, directory entries and times.

use fs_ntfs::dir::{make_dirent, FS_NTFS_DIRENT_NAME_BYTES};
use fs_ntfs::last_error::{
    clear_last_error, err_i64, err_int, infer_errno_from_message, set_error, LastError,
};
use fs_ntfs::reparse::{
    decode_mount_point_print_name, decode_symlink_print_name, utf16_le_bytes_to_string,
};
use fs_ntfs::time::ntfs_time_to_unix;

// --- infer_errno_from_message ---

#[test]
fn infer_errno_not_found_variants() {
    assert_eq!(infer_errno_from_message("file not found"), 2);
    assert_eq!(infer_errno_from_message("path is nonexistent"), 2);
    assert_eq!(infer_errno_from_message("ENOENT: no such file"), 2);
    assert_eq!(infer_errno_from_message("record not mapped"), 2);
}

#[test]
fn infer_errno_already_exists() {
    assert_eq!(infer_errno_from_message("already exists"), 17);
    assert_eq!(infer_errno_from_message("EEXIST in index"), 17);
}

#[test]
fn infer_errno_no_space() {
    assert_eq!(infer_errno_from_message("no room in record"), 28);
    assert_eq!(infer_errno_from_message("volume is full"), 28);
    assert_eq!(infer_errno_from_message("out of space"), 28);
    assert_eq!(infer_errno_from_message("exceeds record capacity"), 28);
}

#[test]
fn infer_errno_invalid() {
    assert_eq!(infer_errno_from_message("invalid basename"), 22);
    assert_eq!(infer_errno_from_message("null or non-UTF-8 path"), 22);
    assert_eq!(infer_errno_from_message("null pointer"), 22);
}

#[test]
fn infer_errno_directory_errors() {
    assert_eq!(infer_errno_from_message("not a directory"), 20);
    assert_eq!(infer_errno_from_message("target is a directory"), 21);
    assert_eq!(infer_errno_from_message("directory not empty"), 66);
}

#[test]
fn infer_errno_permission() {
    assert_eq!(infer_errno_from_message("refuse to overwrite"), 1);
    assert_eq!(infer_errno_from_message("permission denied"), 1);
}

#[test]
fn infer_errno_fallback_is_eio() {
    assert_eq!(infer_errno_from_message("some weird I/O error"), 5);
    assert_eq!(infer_errno_from_message(""), 5);
}

// --- utf16_le_bytes_to_string ---

#[test]
fn utf16_le_empty_returns_none() {
    assert_eq!(utf16_le_bytes_to_string(&[]), None);
}

#[test]
fn utf16_le_odd_length_returns_none() {
    assert_eq!(utf16_le_bytes_to_string(&[0x48]), None);
    assert_eq!(utf16_le_bytes_to_string(&[0x48, 0x00, 0x00]), None);
}

#[test]
fn utf16_le_valid_ascii_string() {
    // "Hi" in UTF-16 LE
    let bytes = [0x48u8, 0x00, 0x69, 0x00];
    assert_eq!(utf16_le_bytes_to_string(&bytes), Some("Hi".to_string()));
}

#[test]
fn utf16_le_valid_unicode() {
    // U+00E9 (é) in UTF-16 LE
    let bytes = [0xE9u8, 0x00];
    assert_eq!(utf16_le_bytes_to_string(&bytes), Some("é".to_string()));
}

#[test]
fn utf16_le_invalid_surrogates_returns_none() {
    // Lone high surrogate U+D800 — invalid UTF-16
    let bytes = [0x00u8, 0xD8];
    assert_eq!(utf16_le_bytes_to_string(&bytes), None);
}

// --- decode_symlink_print_name ---

fn symlink_buf(print_name_offset: u16, print_name: &str) -> Vec<u8> {
    let pn_utf16: Vec<u16> = print_name.encode_utf16().collect();
    let pn_bytes: Vec<u8> = pn_utf16.iter().flat_map(|c| c.to_le_bytes()).collect();
    // substitute_name_offset=0, substitute_name_length=0, print_name_offset, print_name_length, Flags(4)
    let mut buf = vec![0u8; 12 + print_name_offset as usize + pn_bytes.len()];
    buf[4..6].copy_from_slice(&print_name_offset.to_le_bytes());
    buf[6..8].copy_from_slice(&(pn_bytes.len() as u16).to_le_bytes());
    // Flags at [8..12] = 0
    let start = 12 + print_name_offset as usize;
    buf[start..start + pn_bytes.len()].copy_from_slice(&pn_bytes);
    buf
}

#[test]
fn decode_symlink_basic() {
    let buf = symlink_buf(0, "C:\\target");
    assert_eq!(
        decode_symlink_print_name(&buf),
        Some("C:\\target".to_string())
    );
}

#[test]
fn decode_symlink_with_offset() {
    // Print name starts after 4 bytes (e.g. substitute name occupies first 4 bytes)
    let buf = symlink_buf(4, "C:\\link");
    assert_eq!(
        decode_symlink_print_name(&buf),
        Some("C:\\link".to_string())
    );
}

#[test]
fn decode_symlink_too_short_returns_none() {
    assert_eq!(decode_symlink_print_name(&[0u8; 11]), None);
    assert_eq!(decode_symlink_print_name(&[]), None);
}

#[test]
fn decode_symlink_out_of_bounds_returns_none() {
    // print_name_offset says data starts at offset 100 but buffer is tiny
    let mut buf = vec![0u8; 12];
    buf[4..6].copy_from_slice(&100u16.to_le_bytes()); // offset=100
    buf[6..8].copy_from_slice(&2u16.to_le_bytes()); // length=2
    assert_eq!(decode_symlink_print_name(&buf), None);
}

// --- decode_mount_point_print_name ---

fn mount_point_buf(print_name_offset: u16, print_name: &str) -> Vec<u8> {
    let pn_utf16: Vec<u16> = print_name.encode_utf16().collect();
    let pn_bytes: Vec<u8> = pn_utf16.iter().flat_map(|c| c.to_le_bytes()).collect();
    // substitute_name_offset=0, substitute_name_length=0, print_name_offset, print_name_length
    // PathBuffer starts at offset 8 (no Flags field unlike symlink)
    let mut buf = vec![0u8; 8 + print_name_offset as usize + pn_bytes.len()];
    buf[4..6].copy_from_slice(&print_name_offset.to_le_bytes());
    buf[6..8].copy_from_slice(&(pn_bytes.len() as u16).to_le_bytes());
    let start = 8 + print_name_offset as usize;
    buf[start..start + pn_bytes.len()].copy_from_slice(&pn_bytes);
    buf
}

#[test]
fn decode_mount_point_basic() {
    let buf = mount_point_buf(0, "\\??\\Volume{abc}\\");
    assert_eq!(
        decode_mount_point_print_name(&buf),
        Some("\\??\\Volume{abc}\\".to_string())
    );
}

#[test]
fn decode_mount_point_too_short_returns_none() {
    assert_eq!(decode_mount_point_print_name(&[0u8; 7]), None);
    assert_eq!(decode_mount_point_print_name(&[]), None);
}

#[test]
fn decode_mount_point_out_of_bounds_returns_none() {
    let mut buf = vec![0u8; 8];
    buf[4..6].copy_from_slice(&200u16.to_le_bytes()); // offset=200, far out
    buf[6..8].copy_from_slice(&2u16.to_le_bytes());
    assert_eq!(decode_mount_point_print_name(&buf), None);
}

// --- the last error ---

#[test]
fn set_error_records_errno() {
    let mut last = LastError::new();
    set_error(&mut last, "file not found");
    assert_eq!(last.errno, 2); // ENOENT
}

#[test]
fn set_error_records_eexist() {
    let mut last = LastError::new();
    set_error(&mut last, "already exists in directory");
    assert_eq!(last.errno, 17); // EEXIST
}

#[test]
fn set_error_records_enospc() {
    let mut last = LastError::new();
    set_error(&mut last, "no room for new attribute");
    assert_eq!(last.errno, 28); // ENOSPC
}

#[test]
fn set_error_records_einval() {
    let mut last = LastError::new();
    set_error(&mut last, "invalid basename provided");
    assert_eq!(last.errno, 22); // EINVAL
}

#[test]
fn set_error_records_enotdir() {
    let mut last = LastError::new();
    set_error(&mut last, "path component is not a directory");
    assert_eq!(last.errno, 20); // ENOTDIR
}

#[test]
fn set_error_records_eisdir() {
    let mut last = LastError::new();
    set_error(&mut last, "target is a directory, not a file");
    assert_eq!(last.errno, 21); // EISDIR
}

#[test]
fn set_error_records_enotempty() {
    let mut last = LastError::new();
    set_error(&mut last, "directory is not empty");
    assert_eq!(last.errno, 66); // ENOTEMPTY
}

#[test]
fn set_error_records_eperm() {
    let mut last = LastError::new();
    set_error(&mut last, "refuse to overwrite special file");
    assert_eq!(last.errno, 1); // EPERM
}

#[test]
fn set_error_fallback_is_eio() {
    let mut last = LastError::new();
    set_error(&mut last, "some unrecognised error");
    assert_eq!(last.errno, 5); // EIO
}

#[test]
fn clear_last_error_resets_errno_to_zero() {
    let mut last = LastError::new();
    set_error(&mut last, "not found");
    clear_last_error(&mut last);
    assert_eq!(last.errno, 0);
}

// --- err_int / err_i64 ---

#[test]
fn err_int_returns_negative_one() {
    let mut last = LastError::new();
    let ret = err_int(&mut last, "file not found in err_int test");
    assert_eq!(ret, -1);
    assert_eq!(last.errno, 2); // ENOENT
}

#[test]
fn err_i64_returns_negative_one() {
    let mut last = LastError::new();
    let ret = err_i64(&mut last, "already exists in err_i64 test");
    assert_eq!(ret, -1i64);
    assert_eq!(last.errno, 17);
}

// --- make_dirent ---

#[test]
fn make_dirent_sets_fields() {
    let d = make_dirent(42, 2, b"hello");
    assert_eq!(d.file_record_number, 42);
    assert_eq!(d.file_type, 2);
    assert_eq!(d.name_len, 5);
    assert_eq!(&d.name[..5], b"hello");
}

#[test]
fn make_dirent_zero_fills_trailing_name() {
    let d = make_dirent(1, 0, b"hi");
    assert_eq!(d.name_len, 2);
    assert_eq!(d.name[2], 0);
    assert_eq!(d.name[FS_NTFS_DIRENT_NAME_BYTES - 1], 0);
}

#[test]
fn make_dirent_truncates_long_name() {
    let long_name = vec![b'X'; FS_NTFS_DIRENT_NAME_BYTES + 10];
    let d = make_dirent(1, 0, &long_name);
    // name_len capped at FS_NTFS_DIRENT_NAME_BYTES - 1
    assert_eq!(d.name_len as usize, FS_NTFS_DIRENT_NAME_BYTES - 1);
}

#[test]
fn make_dirent_empty_name() {
    let d = make_dirent(99, 1, b"");
    assert_eq!(d.name_len, 0);
    assert_eq!(d.file_record_number, 99);
}

// --- times ---

fn make_ts(hundred_ns: u64) -> u64 {
    ntfs::NtfsTime::from(hundred_ns).nt_timestamp()
}

#[test]
fn unix_epoch_itself() {
    // 1970-01-01T00:00:00Z = 11644473600 seconds after 1601-01-01
    let ts = make_ts(11_644_473_600u64 * 10_000_000);
    let (sec, nsec) = ntfs_time_to_unix(ts);
    assert_eq!(sec, 0);
    assert_eq!(nsec, 0);
}

#[test]
fn positive_timestamp_with_subseconds() {
    // 1 second + 250 ms after UNIX epoch
    let hundred_ns = (11_644_473_600u64 + 1) * 10_000_000 + 2_500_000; // +250ms
    let (sec, nsec) = ntfs_time_to_unix(make_ts(hundred_ns));
    assert_eq!(sec, 1);
    assert_eq!(nsec, 250_000_000);
}

#[test]
fn pre_epoch_timestamp() {
    let hundred_ns = (11_644_473_600u64 - 1) * 10_000_000;
    let (sec, nsec) = ntfs_time_to_unix(make_ts(hundred_ns));
    assert_eq!(sec, -1);
    assert_eq!(nsec, 0);
}

#[test]
fn nsec_max_value() {
    // 999_999_900 ns = 9_999_999 × 100 ns intervals (just under 1 second)
    let hundred_ns = 11_644_473_600u64 * 10_000_000 + 9_999_999;
    let (sec, nsec) = ntfs_time_to_unix(make_ts(hundred_ns));
    assert_eq!(sec, 0);
    assert_eq!(nsec, 999_999_900);
}
