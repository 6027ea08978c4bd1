//! Positioned reads and writes.

use std::io::{Read, Seek, SeekFrom};

use fs_ntfs::block_io::{BlockIo, Bytes, IoReadSeek, SeekTo};

/// A device with a position, as `std` reads and seeks one.
struct Positioned<'a, T: BlockIo>(IoReadSeek<'a, T>);

impl<T: BlockIo> Read for Positioned<'_, T> {
    fn read(&mut self, buf: &mut [u8]) -> std::io::Result<usize> {
        self.0.read(buf).map_err(std::io::Error::other)
    }
}

impl<T: BlockIo> Seek for Positioned<'_, T> {
    fn seek(&mut self, pos: SeekFrom) -> std::io::Result<u64> {
        let to = match pos {
            SeekFrom::Start(p) => SeekTo::Start(p),
            SeekFrom::End(p) => SeekTo::End(p),
            SeekFrom::Current(p) => SeekTo::Current(p),
        };
        self.0.seek(to).map_err(std::io::Error::other)
    }
}

// -------------------------------------------------------------------------
// Minimal in-memory BlockIo for IoReadSeek tests (no disk needed).
// -------------------------------------------------------------------------

struct MemDev {
    buf: Vec<u8>,
}
impl MemDev {
    fn with_bytes(bytes: impl Into<Vec<u8>>) -> Self {
        Self { buf: bytes.into() }
    }
}
impl BlockIo for MemDev {
    fn read_exact_at(&mut self, offset: u64, buf: &mut [u8]) -> Result<(), String> {
        let off = offset as usize;
        if off + buf.len() > self.buf.len() {
            return Err(format!("read past end: off={off} len={}", buf.len()));
        }
        buf.copy_from_slice(&self.buf[off..off + buf.len()]);
        Ok(())
    }
    fn write_all_at(&mut self, offset: u64, buf: &[u8]) -> Result<(), String> {
        let off = offset as usize;
        if off + buf.len() > self.buf.len() {
            return Err(format!("write past end: off={off} len={}", buf.len()));
        }
        self.buf[off..off + buf.len()].copy_from_slice(buf);
        Ok(())
    }
    fn size(&self) -> u64 {
        self.buf.len() as u64
    }
}

// -------------------------------------------------------------------------
// IoReadSeek: Read trait.
// -------------------------------------------------------------------------

#[test]
fn ioreadseek_read_all_bytes_from_start() {
    let mut dev = MemDev::with_bytes(b"hello world" as &[u8]);
    let mut rs = Positioned(IoReadSeek::new(&mut dev));
    let mut out = Vec::new();
    rs.read_to_end(&mut out).unwrap();
    assert_eq!(out, b"hello world");
}

#[test]
fn ioreadseek_read_partial_buffer() {
    let mut dev = MemDev::with_bytes(b"abcdefgh" as &[u8]);
    let mut rs = Positioned(IoReadSeek::new(&mut dev));
    let mut buf = [0u8; 4];
    let n = rs.read(&mut buf).unwrap();
    assert_eq!(n, 4);
    assert_eq!(&buf, b"abcd");
}

#[test]
fn ioreadseek_read_at_end_returns_zero() {
    let mut dev = MemDev::with_bytes(b"xy" as &[u8]);
    let mut rs = Positioned(IoReadSeek::new(&mut dev));
    // Seek to end.
    rs.seek(SeekFrom::End(0)).unwrap();
    let mut buf = [0u8; 4];
    let n = rs.read(&mut buf).unwrap();
    assert_eq!(n, 0, "read at end returns 0 bytes");
}

#[test]
fn ioreadseek_sequential_reads_advance_cursor() {
    let mut dev = MemDev::with_bytes(b"ABCDE" as &[u8]);
    let mut rs = Positioned(IoReadSeek::new(&mut dev));
    let mut buf = [0u8; 2];
    rs.read_exact(&mut buf).unwrap();
    assert_eq!(&buf, b"AB");
    rs.read_exact(&mut buf).unwrap();
    assert_eq!(&buf, b"CD");
}

// -------------------------------------------------------------------------
// IoReadSeek: Seek trait.
// -------------------------------------------------------------------------

#[test]
fn ioreadseek_seek_start_positions_cursor() {
    let mut dev = MemDev::with_bytes(b"0123456789" as &[u8]);
    let mut rs = Positioned(IoReadSeek::new(&mut dev));
    let pos = rs.seek(SeekFrom::Start(5)).unwrap();
    assert_eq!(pos, 5);
    let mut buf = [0u8; 3];
    rs.read_exact(&mut buf).unwrap();
    assert_eq!(&buf, b"567");
}

#[test]
fn ioreadseek_seek_end_minus_n_reads_tail() {
    let mut dev = MemDev::with_bytes(b"0123456789" as &[u8]);
    let mut rs = Positioned(IoReadSeek::new(&mut dev));
    rs.seek(SeekFrom::End(-3)).unwrap();
    let mut buf = [0u8; 3];
    rs.read_exact(&mut buf).unwrap();
    assert_eq!(&buf, b"789");
}

#[test]
fn ioreadseek_seek_current_advances_relative() {
    let mut dev = MemDev::with_bytes(b"ABCDE" as &[u8]);
    let mut rs = Positioned(IoReadSeek::new(&mut dev));
    rs.seek(SeekFrom::Start(1)).unwrap();
    rs.seek(SeekFrom::Current(2)).unwrap();
    let mut buf = [0u8; 2];
    rs.read_exact(&mut buf).unwrap();
    assert_eq!(&buf, b"DE");
}

#[test]
fn ioreadseek_seek_before_start_returns_error() {
    let mut dev = MemDev::with_bytes(b"ABC" as &[u8]);
    let mut rs = Positioned(IoReadSeek::new(&mut dev));
    rs.seek(SeekFrom::Start(1)).unwrap();
    let err = rs.seek(SeekFrom::Current(-5));
    assert!(err.is_err(), "seek before start must fail");
}

#[test]
fn ioreadseek_seek_end_zero_is_at_size() {
    let mut dev = MemDev::with_bytes(b"HELLO" as &[u8]);
    let mut rs = Positioned(IoReadSeek::new(&mut dev));
    let pos = rs.seek(SeekFrom::End(0)).unwrap();
    assert_eq!(pos, 5);
}

// -------------------------------------------------------------------------
// BlockIo for &mut T blanket impl: passes through correctly.
// -------------------------------------------------------------------------

fn read_via_ref<T: BlockIo>(io: &mut T, offset: u64, len: usize) -> Vec<u8> {
    let mut buf = vec![0u8; len];
    io.read_exact_at(offset, &mut buf).unwrap();
    buf
}

#[test]
fn blockio_ref_mut_blanket_impl_delegates_correctly() {
    let mut dev = MemDev::with_bytes(b"payload" as &[u8]);
    // Pass &mut dev — exercises BlockIo for &mut T.
    let out = read_via_ref(&mut dev, 0, 7);
    assert_eq!(out, b"payload");
}

#[test]
fn blockio_ref_mut_size_delegates() {
    let mut dev = MemDev::with_bytes(b"abc" as &[u8]);
    let r: &mut dyn BlockIo = &mut dev;
    assert_eq!(r.size(), 3);
}

// --- a volume held in memory -------------------------------------------------

#[test]
fn bytes_are_read_where_they_are() {
    let mut dev = Bytes(b"Hello, NTFS!".to_vec());
    assert_eq!(dev.size(), 12);
    let mut buf = [0u8; 4];
    dev.read_exact_at(7, &mut buf).unwrap();
    assert_eq!(&buf, b"NTFS");
    assert!(dev.sync().is_ok());
}

#[test]
fn bytes_end_where_the_volume_ends() {
    let mut dev = Bytes(vec![0u8; 64]);
    let mut buf = [0u8; 16];
    assert!(dev.read_exact_at(48, &mut buf).is_ok());
    assert_eq!(
        dev.read_exact_at(60, &mut buf).unwrap_err(),
        "read of 16 bytes at 60 runs past the end of a 64-byte volume"
    );
}

#[test]
fn bytes_take_no_writes() {
    let mut dev = Bytes(vec![0u8; 64]);
    assert_eq!(
        dev.write_all_at(0, b"x").unwrap_err(),
        "this volume is read-only"
    );
    assert_eq!(dev.0, vec![0u8; 64]);
}

#[test]
fn nothing_is_read_where_there_is_nothing() {
    /// A device that reads nothing.
    struct Deaf;
    impl BlockIo for Deaf {
        fn read_exact_at(&mut self, _offset: u64, _buf: &mut [u8]) -> Result<(), String> {
            Err("deaf".to_string())
        }
        fn write_all_at(&mut self, _offset: u64, _buf: &[u8]) -> Result<(), String> {
            Err("deaf".to_string())
        }
        fn size(&self) -> u64 {
            8
        }
    }
    let mut dev = Deaf;
    let mut r = IoReadSeek::new(&mut dev);
    let mut buf = [0u8; 4];
    assert_eq!(r.read(&mut []).unwrap(), 0);
    assert_eq!(r.read(&mut buf).unwrap_err(), "deaf");
    r.seek(SeekTo::Start(8)).unwrap();
    assert_eq!(r.read(&mut buf).unwrap(), 0);
}
