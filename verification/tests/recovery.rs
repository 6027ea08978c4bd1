//! Recovery of a volume: its dirty flag and its log.

use fs_ntfs::block_io::Bytes;
use fs_ntfs::fsck::{
    clear_dirty_io, cleared, fsck_io, is_dirty_io, logfile_extent, reset_logfile_io, FsckIo, Steps,
};

/// A device in memory that can be told to refuse writes from an offset on, and
/// to refuse to flush.
struct Disk {
    data: Vec<u8>,
    refuse_from: u64,
    refuse_sync: bool,
}

impl FsckIo for Disk {
    fn read_exact_at(&mut self, offset: u64, buf: &mut [u8]) -> Result<(), String> {
        let at = offset as usize;
        if at + buf.len() > self.data.len() {
            return Err("short".to_string());
        }
        buf.copy_from_slice(&self.data[at..at + buf.len()]);
        Ok(())
    }

    fn write_all_at(&mut self, offset: u64, buf: &[u8]) -> Result<(), String> {
        if offset >= self.refuse_from {
            return Err("refused".to_string());
        }
        let at = offset as usize;
        self.data[at..at + buf.len()].copy_from_slice(buf);
        Ok(())
    }

    fn size(&self) -> u64 {
        self.data.len() as u64
    }

    fn sync(&mut self) -> Result<(), String> {
        if self.refuse_sync {
            Err("no flush".to_string())
        } else {
            Ok(())
        }
    }
}

const ATTR: u64 = 0x100;
const FLAGS: usize = 0x100 + 0x18 + 10;
const LOG: u64 = 0x400;

/// A device with `$VOLUME_INFORMATION` at `ATTR` and `flags` in it.
fn disk(flags: u16) -> Disk {
    let mut data = vec![0u8; 200_000];
    data[0x114..0x116].copy_from_slice(&0x18u16.to_le_bytes());
    data[FLAGS..FLAGS + 2].copy_from_slice(&flags.to_le_bytes());
    Disk {
        data,
        refuse_from: u64::MAX,
        refuse_sync: false,
    }
}

/// A listener that was told nothing yet.
fn listener() -> Option<Steps> {
    Some(Steps { list: Vec::new() })
}

/// What a listener was told.
fn told(l: &Option<Steps>) -> Vec<(&str, u64, u64)> {
    let steps = l.as_ref().unwrap();
    steps.list.iter().map(|(p, a, b)| (p.as_str(), *a, *b)).collect()
}

#[test]
fn the_dirty_flag_is_the_lowest_bit() {
    assert!(is_dirty_io(&mut disk(0x8001), Ok(ATTR)).unwrap());
    assert!(!is_dirty_io(&mut disk(0x8000), Ok(ATTR)).unwrap());
    assert_eq!(
        is_dirty_io(&mut disk(1), Err("not NTFS".to_string())).unwrap_err(),
        "not NTFS"
    );
    assert_eq!(
        is_dirty_io(&mut disk(1), Ok(1_000_000)).unwrap_err(),
        "read value_offset: short"
    );
}

#[test]
fn a_volume_held_in_memory_can_be_asked() {
    let mut volume = Bytes(disk(1).data);
    assert!(is_dirty_io(&mut volume, Ok(ATTR)).unwrap());
    assert_eq!(
        clear_dirty_io(&mut volume, Ok(ATTR)).unwrap_err(),
        "write volume flags: this volume is read-only"
    );
}

#[test]
fn clearing_leaves_the_other_flags() {
    let mut d = disk(0x4001);
    assert!(clear_dirty_io(&mut d, Ok(ATTR)).unwrap());
    assert_eq!(&d.data[FLAGS..FLAGS + 2], &[0x00, 0x40]);
    assert!(!is_dirty_io(&mut d, Ok(ATTR)).unwrap(), "what was cleared is clean");
    assert!(!clear_dirty_io(&mut d, Ok(ATTR)).unwrap(), "there was nothing to clear");
}

#[test]
fn a_clearing_that_fails_says_where() {
    let mut d = disk(1);
    d.refuse_from = 0;
    assert_eq!(
        clear_dirty_io(&mut d, Ok(ATTR)).unwrap_err(),
        "write volume flags: refused"
    );
    let mut d = disk(1);
    d.refuse_sync = true;
    assert_eq!(
        clear_dirty_io(&mut d, Ok(ATTR)).unwrap_err(),
        "fsync: no flush"
    );
}

#[test]
fn the_log_must_have_a_place_and_a_length() {
    assert_eq!(logfile_extent(Some(7), 9).unwrap(), (7, 9));
    assert_eq!(
        logfile_extent(None, 9).unwrap_err(),
        "$LogFile $DATA has no first-run position"
    );
    assert_eq!(
        logfile_extent(Some(7), 0).unwrap_err(),
        "$LogFile $DATA has zero length"
    );
}

#[test]
fn the_log_is_filled_and_nothing_else() {
    let mut d = disk(1);
    let before = d.data.clone();
    let n = 65536 + 100;
    let mut l = listener();
    let done = reset_logfile_io(&mut d, Ok((LOG, n)), &mut l).unwrap();
    assert_eq!(done, n);
    let end = (LOG + n) as usize;
    assert!(d.data[LOG as usize..end].iter().all(|&b| b == 0xFF));
    assert_eq!(&d.data[..LOG as usize], &before[..LOG as usize]);
    assert_eq!(&d.data[end..], &before[end..]);
    assert_eq!(
        told(&l),
        vec![
            ("reset_logfile", 0, n),
            ("reset_logfile", 65536, n),
            ("reset_logfile", n, n),
        ]
    );
}

#[test]
fn a_log_that_cannot_be_written_says_so() {
    let mut d = disk(1);
    d.refuse_from = LOG + 65536;
    let mut l = listener();
    let e = reset_logfile_io(&mut d, Ok((LOG, 100_000)), &mut l);
    assert_eq!(e.unwrap_err(), "write logfile: refused");
    assert_eq!(
        told(&l),
        vec![("reset_logfile", 0, 100_000), ("reset_logfile", 65536, 100_000)]
    );
    let mut l = listener();
    let e = reset_logfile_io(&mut d, Err("no log".to_string()), &mut l);
    assert_eq!(e.unwrap_err(), "no log");
    assert!(told(&l).is_empty());
    let mut d = disk(1);
    d.refuse_sync = true;
    let mut l = listener();
    let e = reset_logfile_io(&mut d, Ok((LOG, 50)), &mut l);
    assert_eq!(e.unwrap_err(), "fsync: no flush");
    assert_eq!(told(&l), vec![("reset_logfile", 0, 50), ("reset_logfile", 50, 50)]);
}

#[test]
fn a_recovery_does_both_and_tells_both() {
    let mut d = disk(1);
    let mut l = listener();
    let r = fsck_io(&mut d, Ok((LOG, 50)), Ok(ATTR), &mut l).unwrap();
    assert_eq!((r.logfile_bytes, r.dirty_cleared), (50, true));
    assert!(!is_dirty_io(&mut d, Ok(ATTR)).unwrap());
    assert_eq!(
        told(&l),
        vec![
            ("reset_logfile", 0, 50),
            ("reset_logfile", 50, 50),
            ("clear_dirty", 0, 1),
            ("clear_dirty", 1, 1),
        ]
    );
}

#[test]
fn a_recovery_without_its_log_leaves_the_flag() {
    let mut d = disk(1);
    let e = fsck_io(&mut d, Err("no log".to_string()), Ok(ATTR), &mut None::<Steps>);
    assert_eq!(e.unwrap_err(), "no log");
    assert!(is_dirty_io(&mut d, Ok(ATTR)).unwrap());
}

#[test]
fn a_flag_that_cannot_be_cleared_was_begun() {
    let mut d = disk(1);
    let mut l = listener();
    let e = fsck_io(&mut d, Ok((LOG, 50)), Err("no volume".to_string()), &mut l);
    assert_eq!(e.unwrap_err(), "no volume");
    assert_eq!(
        told(&l),
        vec![
            ("reset_logfile", 0, 50),
            ("reset_logfile", 50, 50),
            ("clear_dirty", 0, 1),
        ]
    );
}

#[test]
fn flags_beside_their_own_offset_are_cleared() {
    let mut d = disk(0);
    d.data[0x114] = 9;
    d.data[0x113] = 1;
    assert!(clear_dirty_io(&mut d, Ok(ATTR)).unwrap());
    assert_eq!(&d.data[0x113..0x116], &[0, 9, 0]);
    assert!(!is_dirty_io(&mut d, Ok(ATTR)).unwrap());
}

#[test]
fn only_the_dirty_flag_is_cleared() {
    assert_eq!(cleared(0xC001), Some(0xC000));
    assert_eq!(cleared(0xC000), None);
}
