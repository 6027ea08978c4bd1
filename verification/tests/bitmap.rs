//! The bitmap of a volume.

use fs_ntfs::bitmap::{
    allocate_io, bit_is_set, clear_bit, count_free_io, count_ones, find_free_run_io, flipped,
    free_io, is_allocated_io, mutate_bits_io, read_range_io, scan_bytes, set_bit,
    write_bitmap_bytes_io, BitmapLocation, ScanStep,
};
use fs_ntfs::block_io::BlockIo;
use fs_ntfs::data_runs::{range_has_hole_or_past_end, DataRun};
use fs_ntfs::mft_io::BootParams;

struct MemDev {
    buf: Vec<u8>,
}
impl MemDev {
    fn new(size: usize) -> Self {
        Self {
            buf: vec![0u8; size],
        }
    }
}
impl BlockIo for MemDev {
    fn read_exact_at(&mut self, offset: u64, buf: &mut [u8]) -> Result<(), String> {
        let off = offset as usize;
        if off + buf.len() > self.buf.len() {
            return Err("read past end".into());
        }
        buf.copy_from_slice(&self.buf[off..off + buf.len()]);
        Ok(())
    }
    fn write_all_at(&mut self, offset: u64, buf: &[u8]) -> Result<(), String> {
        let off = offset as usize;
        if off + buf.len() > self.buf.len() {
            return Err("write past end".into());
        }
        self.buf[off..off + buf.len()].copy_from_slice(buf);
        Ok(())
    }
    fn size(&self) -> u64 {
        self.buf.len() as u64
    }
}

/// Build a `BitmapLocation` pointing to a single contiguous run
/// starting at LCN 1 (= file offset = cluster_size). Bitmap covers
/// `n_bytes` of $Bitmap data ⇒ `n_bytes*8` clusters total.
fn make_bm(cluster_size: u64, n_bytes: u64) -> BitmapLocation {
    BitmapLocation {
        params: BootParams {
            bytes_per_sector: 512,
            sectors_per_cluster: cluster_size / 512,
            cluster_size,
            mft_lcn: 1_000_000,
            file_record_size: 1024,
            // A real boot sector always says how big the volume is,
            // and cluster_span judges every transfer against it. 512 MiB
            // at 512-byte sectors is larger than anything these tests
            // address, so the bound is present without being the thing
            // under test.
            total_sectors: 1 << 20,
            serial_number: 0,
            oem_id: *b"NTFS    ",
        },
        // One run: bitmap lives at LCN 1, one cluster's worth.
        runs: vec![DataRun {
            starting_vcn: 0,
            length: 1,
            lcn: Some(1),
        }],
        total_bits: n_bytes * 8,
        value_length: n_bytes,
        mft_clusters: 1,
        // No other structure of the volume is known here.
        other_protected: Vec::new(),
    }
}

fn make_fragmented_bm(cluster_size: u64, n_bytes: u64) -> BitmapLocation {
    let mut bm = make_bm(cluster_size, n_bytes);
    bm.runs = vec![
        DataRun {
            starting_vcn: 0,
            length: 1,
            lcn: Some(1),
        },
        DataRun {
            starting_vcn: 1,
            length: 1,
            lcn: Some(5),
        },
    ];
    bm
}

/// A device that refuses writes landing at or past `deny_from`.
struct FailsWritesFrom {
    inner: MemDev,
    deny_from: u64,
}

impl BlockIo for FailsWritesFrom {
    fn read_exact_at(&mut self, offset: u64, buf: &mut [u8]) -> Result<(), String> {
        self.inner.read_exact_at(offset, buf)
    }
    fn write_all_at(&mut self, offset: u64, buf: &[u8]) -> Result<(), String> {
        if offset >= self.deny_from {
            return Err("injected write failure".to_string());
        }
        self.inner.write_all_at(offset, buf)
    }
    fn size(&self) -> u64 {
        self.inner.size()
    }
}

// --- a bitmap write is all or nothing ---------------------------------

#[test]
fn a_bitmap_write_that_fails_partway_leaves_the_bitmap_as_it_was() {
    let cluster = 4096u64;
    // 8192 bytes of bitmap ⇒ the write spans VCN 0 and VCN 1.
    let bm = make_fragmented_bm(cluster, 2 * cluster);
    let mut inner = MemDev::new((cluster * 8) as usize);
    for b in 0..cluster as usize {
        inner.buf[cluster as usize + b] = 0xFF; // run 0, at LCN 1
    }
    inner.buf[(5 * cluster) as usize] = 0xFF; // run 1, at LCN 5
    let before_run0: Vec<u8> = inner.buf[cluster as usize..(2 * cluster) as usize].to_vec();

    // Deny run 1's disk region (LCN 5) but allow run 0's (LCN 1).
    let mut dev = FailsWritesFrom {
        inner,
        deny_from: 5 * cluster,
    };

    // Free a range that starts in run 0 and ends in run 1, so the
    // write is split across both.
    let first_bit = 0u64;
    let n = cluster * 8 + 8; // past the end of run 0's byte range
    let err = mutate_bits_io(&mut dev, &bm, first_bit, n, false)
        .expect_err("the write must fail when its second run does");
    assert!(
        err.contains("injected write failure"),
        "the failure should name its cause: {err}"
    );

    assert_eq!(
        &dev.inner.buf[cluster as usize..(2 * cluster) as usize],
        &before_run0[..],
        "run 0's bytes must be back as they were — a failed bitmap write \
         that leaves half its change on disk is a bitmap that disagrees \
         with the records it describes"
    );
}

#[test]
fn the_write_half_refuses_an_unmapped_range_without_writing() {
    let cluster = 4096u64;
    let mut bm = make_fragmented_bm(cluster, 2 * cluster);
    bm.runs.truncate(1);

    let mut dev = MemDev::new((cluster * 8) as usize);
    for b in 0..cluster as usize {
        dev.buf[cluster as usize + b] = 0xAA;
    }
    let before: Vec<u8> = dev.buf[cluster as usize..(2 * cluster) as usize].to_vec();

    let data = vec![0xFFu8; (cluster + 8) as usize];
    let previous = vec![0xAAu8; (cluster + 8) as usize];
    let err = write_bitmap_bytes_io(&mut dev, &bm, 0, &data, &previous)
        .expect_err("an unmapped VCN must be refused");
    assert!(err.contains("not mapped"), "got: {err}");
    assert_eq!(
        &dev.buf[cluster as usize..(2 * cluster) as usize],
        &before[..],
        "the mappable chunk must not have been written before the \
         unmappable one was discovered"
    );
}

#[test]
fn an_unmapped_run_is_refused_before_any_byte_is_written() {
    let cluster = 4096u64;
    let mut bm = make_fragmented_bm(cluster, 2 * cluster);
    bm.runs.truncate(1);

    let mut dev = MemDev::new((cluster * 8) as usize);
    for b in 0..cluster as usize {
        dev.buf[cluster as usize + b] = 0xFF;
    }
    let before: Vec<u8> = dev.buf[cluster as usize..(2 * cluster) as usize].to_vec();

    let err = mutate_bits_io(&mut dev, &bm, 0, cluster * 8 + 8, false)
        .expect_err("an unmapped VCN must be refused");
    assert!(err.contains("not mapped"), "got: {err}");
    assert_eq!(
        &dev.buf[cluster as usize..(2 * cluster) as usize],
        &before[..],
        "nothing may be written when part of the range cannot be mapped"
    );
}

// --- is_allocated_io ---------------------------------------------------

#[test]
fn is_allocated_io_reads_set_bit_as_true() {
    let mut dev = MemDev::new(8192);
    let bm = make_bm(4096, 4); // 4 bytes ⇒ 32 clusters total.
    // Set bit 5 of byte 0 (cluster 5) in the bitmap (stored at offset 4096).
    dev.buf[4096] = 0b0010_0000;
    assert!(is_allocated_io(&mut dev, &bm, 5).unwrap());
    assert!(!is_allocated_io(&mut dev, &bm, 4).unwrap());
    assert!(!is_allocated_io(&mut dev, &bm, 6).unwrap());
}

#[test]
fn is_allocated_io_out_of_range_errors() {
    let mut dev = MemDev::new(8192);
    let bm = make_bm(4096, 4);
    let err = is_allocated_io(&mut dev, &bm, 32).unwrap_err();
    assert!(err.contains("out of range"), "{err}");
}

// --- allocate_io / free_io --------------------------------------------

#[test]
fn allocate_io_sets_bits_in_range() {
    let mut dev = MemDev::new(8192);
    let bm = make_bm(4096, 4);
    allocate_io(&mut dev, &bm, 3, 5).unwrap();
    for lcn in 3..8 {
        assert!(is_allocated_io(&mut dev, &bm, lcn).unwrap(), "lcn {lcn}");
    }
    // Neighbours untouched.
    assert!(!is_allocated_io(&mut dev, &bm, 2).unwrap());
    assert!(!is_allocated_io(&mut dev, &bm, 8).unwrap());
}

#[test]
fn allocate_io_rejects_already_allocated_cluster() {
    let mut dev = MemDev::new(8192);
    let bm = make_bm(4096, 4);
    allocate_io(&mut dev, &bm, 5, 1).unwrap();
    let err = allocate_io(&mut dev, &bm, 5, 1).unwrap_err();
    assert!(err.contains("already allocated"), "{err}");
}

#[test]
fn free_io_clears_bits_in_range() {
    let mut dev = MemDev::new(8192);
    let bm = make_bm(4096, 4);
    allocate_io(&mut dev, &bm, 0, 16).unwrap();
    free_io(&mut dev, &bm, 4, 8).unwrap();
    for lcn in 0..4 {
        assert!(is_allocated_io(&mut dev, &bm, lcn).unwrap());
    }
    for lcn in 4..12 {
        assert!(!is_allocated_io(&mut dev, &bm, lcn).unwrap());
    }
    for lcn in 12..16 {
        assert!(is_allocated_io(&mut dev, &bm, lcn).unwrap());
    }
}

#[test]
fn free_io_rejects_already_free_cluster() {
    let mut dev = MemDev::new(8192);
    let bm = make_bm(4096, 4);
    let err = free_io(&mut dev, &bm, 5, 1).unwrap_err();
    assert!(err.contains("already free"), "{err}");
}

// --- count_free_io -----------------------------------------------------

#[test]
fn count_free_io_reports_zeros_minus_ones() {
    let mut dev = MemDev::new(8192);
    let bm = make_bm(4096, 4);
    // 32 total bits. Allocate 11.
    allocate_io(&mut dev, &bm, 0, 11).unwrap();
    assert_eq!(count_free_io(&mut dev, &bm).unwrap(), 32 - 11);
}

// --- find_free_run_io --------------------------------------------------

#[test]
fn find_free_run_io_picks_first_fit_starting_at_hint() {
    let mut dev = MemDev::new(8192);
    let bm = make_bm(4096, 4);
    // Allocate clusters 0..10, leaving 10..32 free.
    allocate_io(&mut dev, &bm, 0, 10).unwrap();
    // Looking for 4 contiguous starting from hint=0 → must land at 10.
    let lcn = find_free_run_io(&mut dev, &bm, 4, 0).unwrap();
    assert_eq!(lcn, Some(10));
}

#[test]
fn find_free_run_io_returns_none_if_not_enough_contiguous_free() {
    let mut dev = MemDev::new(8192);
    let bm = make_bm(4096, 4);
    // Allocate every other cluster — no 2-contiguous run available.
    for lcn in (0..32).step_by(2) {
        allocate_io(&mut dev, &bm, lcn, 1).unwrap();
    }
    let res = find_free_run_io(&mut dev, &bm, 2, 0).unwrap();
    assert_eq!(res, None);
}

// --- bit helpers ----------------------------------------------------------

#[test]
fn bit_is_set_reads_individual_bits() {
    assert!(bit_is_set(0b0000_0001, 0));
    assert!(bit_is_set(0b1000_0000, 7));
    assert!(!bit_is_set(0b1111_1110, 0));
    assert!(!bit_is_set(0b0111_1111, 7));
}

#[test]
fn set_bit_sets_only_target_bit() {
    let mut bytes = [0u8; 2];
    set_bit(&mut bytes, 0, 3);
    assert_eq!(bytes[0], 0b0000_1000);
    assert_eq!(bytes[1], 0);
}

#[test]
fn clear_bit_clears_only_target_bit() {
    let mut bytes = [0xFFu8; 2];
    clear_bit(&mut bytes, 0, 3);
    assert_eq!(bytes[0], 0b1111_0111);
    assert_eq!(bytes[1], 0xFF);
}

#[test]
fn find_free_run_io_wraps_around_to_below_hint() {
    let mut dev = MemDev::new(8192);
    let bm = make_bm(4096, 4);
    // Free clusters only in [0..3); past 3 everything allocated.
    allocate_io(&mut dev, &bm, 3, 29).unwrap();
    // Hint at end of bitmap; should wrap and find free run at 0.
    let lcn = find_free_run_io(&mut dev, &bm, 2, 25).unwrap();
    assert_eq!(lcn, Some(0));
}

// --- additional edge cases -------------------------------------------

#[test]
fn allocate_io_crossing_byte_boundary() {
    // Allocate a run that spans byte 0 and byte 1 of the bitmap.
    let mut dev = MemDev::new(8192);
    let bm = make_bm(4096, 4); // 32 clusters
    allocate_io(&mut dev, &bm, 6, 4).unwrap(); // clusters 6,7,8,9
    // Byte 0 should have bits 6 and 7 set (0b1100_0000).
    let byte0 = dev.buf[4096];
    let byte1 = dev.buf[4097];
    assert_eq!(byte0, 0b1100_0000, "bits 6-7 of byte 0");
    assert_eq!(byte1, 0b0000_0011, "bits 0-1 of byte 1 (clusters 8-9)");
}

/// Cluster 0 is $Boot, so a file never frees it and `free_io`
/// refuses to -- the round trip starts at cluster 1.
#[test]
fn allocate_io_then_free_io_full_roundtrip() {
    let mut dev = MemDev::new(8192);
    let bm = make_bm(4096, 4);
    allocate_io(&mut dev, &bm, 1, 31).unwrap();
    assert_eq!(count_free_io(&mut dev, &bm).unwrap(), 1);
    free_io(&mut dev, &bm, 1, 31).unwrap();
    assert_eq!(count_free_io(&mut dev, &bm).unwrap(), 32);
}

#[test]
fn find_free_run_zero_clusters_returns_error() {
    let mut dev = MemDev::new(8192);
    let bm = make_bm(4096, 4);
    let err = find_free_run_io(&mut dev, &bm, 0, 0).unwrap_err();
    assert!(err.contains("0"), "zero-cluster request is invalid: {err}");
}

#[test]
fn find_free_run_hint_beyond_total_clamps_correctly() {
    // hint_lcn > total_bits: the function should clamp and still find a run.
    let mut dev = MemDev::new(8192);
    let bm = make_bm(4096, 4); // 32 clusters
    let lcn = find_free_run_io(&mut dev, &bm, 1, 999).unwrap();
    assert!(
        lcn.is_some(),
        "clamped hint should still find a free cluster"
    );
}

#[test]
fn find_free_run_all_allocated_returns_none() {
    let mut dev = MemDev::new(8192);
    let bm = make_bm(4096, 4); // 32 clusters
    allocate_io(&mut dev, &bm, 0, 32).unwrap();
    assert_eq!(find_free_run_io(&mut dev, &bm, 1, 0).unwrap(), None);
}

#[test]
fn find_free_run_exactly_one_cluster_free_at_end() {
    let mut dev = MemDev::new(8192);
    let bm = make_bm(4096, 4); // 32 clusters
    // Allocate all except the last cluster.
    allocate_io(&mut dev, &bm, 0, 31).unwrap();
    let lcn = find_free_run_io(&mut dev, &bm, 1, 0).unwrap();
    assert_eq!(lcn, Some(31));
}

#[test]
fn allocate_io_out_of_range_returns_error() {
    let mut dev = MemDev::new(8192);
    let bm = make_bm(4096, 4); // 32 clusters
    let err = allocate_io(&mut dev, &bm, 30, 4).unwrap_err(); // 30+4=34 > 32
    assert!(err.contains("not inside"), "{err}");
}

#[test]
fn range_has_hole_returns_false_for_allocated_range() {
    let runs = vec![DataRun {
        starting_vcn: 0,
        length: 10,
        lcn: Some(100),
    }];
    assert!(!range_has_hole_or_past_end(&runs, 0, 10));
    assert!(!range_has_hole_or_past_end(&runs, 3, 5));
}

#[test]
fn bit_helpers_roundtrip_all_bit_positions() {
    for bit in 0..8u8 {
        let mut bytes = [0u8; 1];
        set_bit(&mut bytes, 0, bit);
        assert!(bit_is_set(bytes[0], bit), "bit {bit} should be set");
        clear_bit(&mut bytes, 0, bit);
        assert!(!bit_is_set(bytes[0], bit), "bit {bit} should be clear");
    }
}

// --- read_range_io --------------------------------------------------------

#[test]
fn read_range_io_returns_correct_byte_containing_queried_bits() {
    let mut dev = MemDev::new(8192);
    let bm = make_bm(4096, 4);
    // Allocate clusters 3 and 5 → bitmap byte 0 = 0b0010_1000.
    allocate_io(&mut dev, &bm, 3, 1).unwrap();
    allocate_io(&mut dev, &bm, 5, 1).unwrap();
    // Read 8 bits from start.
    let bytes = read_range_io(&mut dev, &bm, 0, 8).unwrap();
    assert_eq!(bytes.len(), 1);
    assert_eq!(bytes[0], 0b0010_1000);
}

#[test]
fn read_range_io_spanning_two_bytes() {
    let mut dev = MemDev::new(8192);
    let bm = make_bm(4096, 4); // 32 clusters
    // Set bit 7 (end of byte 0) and bit 8 (start of byte 1).
    allocate_io(&mut dev, &bm, 7, 1).unwrap();
    allocate_io(&mut dev, &bm, 8, 1).unwrap();
    // Read bits 4..12 (spans byte 0 bits 4-7 + byte 1 bits 0-3).
    let bytes = read_range_io(&mut dev, &bm, 4, 8).unwrap();
    // start_byte = 4/8 = 0, end_byte = div_ceil(12, 8) = 2
    // So reads bytes [0..2] = 2 bytes.
    assert_eq!(bytes.len(), 2);
    // Byte 0 bit 7 set → 0b1000_0000; byte 1 bit 0 set → 0b0000_0001.
    assert_eq!(bytes[0], 0b1000_0000, "byte 0");
    assert_eq!(bytes[1], 0b0000_0001, "byte 1");
}

#[test]
fn read_range_io_out_of_bounds_errors() {
    let mut dev = MemDev::new(8192);
    let bm = make_bm(4096, 4); // 32 clusters total
    let err = read_range_io(&mut dev, &bm, 30, 5).unwrap_err();
    assert!(err.contains("exceeds total_bits"), "{err}");
}

#[test]
fn read_range_io_zero_bits_returns_empty() {
    let mut dev = MemDev::new(8192);
    let bm = make_bm(4096, 4);
    let bytes = read_range_io(&mut dev, &bm, 0, 0).unwrap();
    assert!(bytes.is_empty());
}

fn bm(total_bits: u64) -> BitmapLocation {
    BitmapLocation {
        params: BootParams {
            bytes_per_sector: 512,
            sectors_per_cluster: 8,
            cluster_size: 4096,
            mft_lcn: 4,
            file_record_size: 1024,
            total_sectors: 1 << 20,
            serial_number: 0,
            oem_id: *b"NTFS    ",
        },
        runs: Vec::new(),
        total_bits,
        value_length: total_bits / 8,
        mft_clusters: 1,
        other_protected: Vec::new(),
    }
}

#[test]
fn a_range_whose_end_wraps_is_refused_by_the_guard_that_bounds_it() {
    let mut dev = MemDev::new(8192);
    let bm = bm(32);

    // The pair the wrap needs: 2^63 + 2^63 is zero, which is
    // "inside" any bitmap.
    let why = mutate_bits_io(&mut dev, &bm, 1 << 63, 1 << 63, true).unwrap_err();
    assert!(why.contains("not inside"), "{why}");

    // And an ordinary range past the end.
    let why = mutate_bits_io(&mut dev, &bm, 30, 4, true).unwrap_err();
    assert!(why.contains("not inside"), "{why}");
}

fn located(mft_lcn: u64, mft_clusters: u64) -> BitmapLocation {
    located_with(mft_lcn, mft_clusters, Vec::new())
}

fn located_with(
    mft_lcn: u64,
    mft_clusters: u64,
    other_protected: Vec<(u64, u64)>,
) -> BitmapLocation {
    BitmapLocation {
        params: BootParams {
            bytes_per_sector: 512,
            sectors_per_cluster: 8,
            cluster_size: 4096,
            mft_lcn,
            file_record_size: 1024,
            total_sectors: 1 << 20,
            serial_number: 0,
            oem_id: *b"NTFS    ",
        },
        runs: Vec::new(),
        total_bits: 1 << 16,
        value_length: 1 << 13,
        mft_clusters,
        other_protected,
    }
}

#[test]
fn a_files_runs_may_not_free_the_volumes_own_clusters() {
    let bm = located(64, 32); // $MFT at clusters 64..96

    // The boot sector is cluster 0.
    assert!(bm.covers_the_volumes_own(0, 1));
    assert!(bm.covers_the_volumes_own(0, 4096));

    // $MFT, from any direction.
    assert!(bm.covers_the_volumes_own(64, 1), "its first cluster");
    assert!(bm.covers_the_volumes_own(95, 1), "its last");
    assert!(bm.covers_the_volumes_own(60, 8), "a run reaching into it");
    assert!(bm.covers_the_volumes_own(90, 16), "a run leaving it");
    assert!(bm.covers_the_volumes_own(1, 1000), "a run swallowing it");

    // An ordinary file's clusters.
    assert!(!bm.covers_the_volumes_own(1, 63), "up to $MFT");
    assert!(!bm.covers_the_volumes_own(96, 100), "past $MFT");
}

#[test]
fn a_zero_mft_clusters_scalar_does_not_blanket_refuse_the_volume() {
    let unknown = located_with(64, 0, vec![(64, 96)]);

    // The boot sector, always.
    assert!(unknown.covers_the_volumes_own(0, 1));
    // $MFT is protected by its runs.
    assert!(
        unknown.covers_the_volumes_own(64, 32),
        "$MFT's own clusters must be refused even with mft_clusters == 0, because \
         other_protected carries its real runs"
    );
    assert!(
        !unknown.covers_the_volumes_own(5000, 1),
        "a zero mft_clusters scalar must NOT blanket-refuse the volume"
    );
}

#[test]
fn a_files_runs_may_not_free_any_other_system_metafiles_clusters_either() {
    // $MFT at 64..96, $MFTMirr at 200..204.
    let bm = located_with(64, 32, vec![(200, 204)]);

    assert!(
        bm.covers_the_volumes_own(200, 1),
        "$MFTMirr's first cluster"
    );
    assert!(bm.covers_the_volumes_own(203, 1), "$MFTMirr's last cluster");
    assert!(
        bm.covers_the_volumes_own(198, 4),
        "a run reaching into $MFTMirr"
    );
    assert!(bm.covers_the_volumes_own(202, 10), "a run leaving $MFTMirr");

    // An unrelated file's clusters.
    assert!(
        !bm.covers_the_volumes_own(100, 50),
        "between $MFT and $MFTMirr"
    );
    assert!(!bm.covers_the_volumes_own(204, 100), "past $MFTMirr");

    // $MFT protection is unaffected by $MFTMirr being tracked too.
    assert!(bm.covers_the_volumes_own(64, 1));
}

#[test]
fn one_unlocatable_metafile_does_not_cost_the_whole_volume() {
    // $MFT and $MFTMirr located; another metafile simply absent.
    let bm = located_with(64, 32, vec![(64, 96), (200, 204)]);

    assert!(bm.covers_the_volumes_own(0, 1), "the boot sector");
    assert!(bm.covers_the_volumes_own(64, 1), "$MFT, from its runs");
    assert!(bm.covers_the_volumes_own(200, 1), "$MFTMirr, from its runs");
    assert!(
        !bm.covers_the_volumes_own(1000, 1),
        "a cluster no located metafile claims must stay free -- the guard protects what \
         it can find, and a metafile it could not find costs only that metafile's own \
         protection, not the volume's usability"
    );
}

#[test]
fn set_bits_behind_the_last_cluster_do_not_count() {
    let mut dev = MemDev::new(8192);
    let mut bm = make_bm(4096, 4);
    bm.total_bits = 29;
    dev.buf[4096 + 3] = 0b1110_0000;
    assert_eq!(count_free_io(&mut dev, &bm).unwrap(), 29);
    allocate_io(&mut dev, &bm, 0, 11).unwrap();
    assert_eq!(count_free_io(&mut dev, &bm).unwrap(), 18);
    // Bytes behind the last cluster's are not looked at either.
    bm.total_bits = 8;
    assert_eq!(count_free_io(&mut dev, &bm).unwrap(), 0);
}

#[test]
fn clusters_without_a_bit_count_as_free() {
    let mut dev = MemDev::new(8192);
    let mut bm = make_bm(4096, 4);
    bm.value_length = 2;
    dev.buf[4096] = 0xFF;
    dev.buf[4096 + 2] = 0xFF;
    assert_eq!(count_free_io(&mut dev, &bm).unwrap(), 24);
}

#[test]
fn freeing_what_was_allocated_restores_every_byte() {
    let mut dev = MemDev::new(8192);
    let bm = make_bm(4096, 4);
    allocate_io(&mut dev, &bm, 3, 2).unwrap();
    let before = dev.buf.clone();
    allocate_io(&mut dev, &bm, 6, 13).unwrap();
    assert_ne!(dev.buf, before);
    free_io(&mut dev, &bm, 6, 13).unwrap();
    assert_eq!(dev.buf, before);
    assert_eq!(
        free_io(&mut dev, &bm, 6, 13).unwrap_err(),
        "cluster 6 already free"
    );
}

#[test]
fn bits_are_flipped_where_none_is_in_the_way() {
    assert_eq!(flipped(&[0b0000_0001, 0], 6, 4, true, 14).unwrap(), vec![0b1100_0001, 0b11]);
    assert_eq!(flipped(&[0b1100_0001, 0b11], 6, 4, false, 14).unwrap(), vec![1, 0]);
    assert_eq!(
        flipped(&[0, 0b10], 6, 4, true, 14).unwrap_err(),
        "cluster 17 already allocated"
    );
    assert_eq!(
        flipped(&[0b1000_0000, 0b11], 6, 4, false, 14).unwrap_err(),
        "cluster 14 already free"
    );
}

#[test]
fn ones_are_counted_up_to_a_bit() {
    assert_eq!(count_ones(&[0b1010_0001, 0xFF], 0), 0);
    assert_eq!(count_ones(&[0b1010_0001, 0xFF], 6), 2);
    assert_eq!(count_ones(&[0b1010_0001, 0xFF], 11), 6);
}

#[test]
fn clear_bits_in_a_row_are_found() {
    assert!(matches!(scan_bytes(&[0b0001_0000], 2, 6, 1, 3), ScanStep::Found(2)));
    assert!(matches!(scan_bytes(&[0b0001_0000], 2, 6, 0, 3), ScanStep::Found(6)));
    assert!(matches!(scan_bytes(&[0b0001_0000], 2, 6, 0, 4), ScanStep::Running(3)));
    assert!(matches!(scan_bytes(&[0b1000_0000], 2, 6, 0, 6), ScanStep::Running(0)));
    assert!(matches!(scan_bytes(&[], 0, 0, 5, 6), ScanStep::Running(5)));
}

#[test]
fn a_bitmap_of_no_bits_is_not_read() {
    // A device on which every read fails.
    let mut dev = MemDev::new(0);
    let mut bm = make_bm(4096, 4);
    bm.total_bits = 0;
    assert_eq!(find_free_run_io(&mut dev, &bm, 1, 5).unwrap(), None);
    assert_eq!(count_free_io(&mut dev, &bm).unwrap(), 0);
    assert!(read_range_io(&mut dev, &bm, 0, 0).unwrap().is_empty());
    bm.total_bits = 32;
    bm.value_length = 0;
    assert_eq!(count_free_io(&mut dev, &bm).unwrap(), 32);
    assert_eq!(find_free_run_io(&mut dev, &bm, 1, 5).unwrap_err(), "read bitmap: read past end");
    bm.runs.clear();
    assert_eq!(
        find_free_run_io(&mut dev, &bm, 1, 5).unwrap_err(),
        "VCN 0 not mapped in $Bitmap"
    );
}

#[test]
fn a_run_around_the_hint_is_found() {
    let mut dev = MemDev::new(8192);
    let bm = make_bm(4096, 4);
    allocate_io(&mut dev, &bm, 0, 2).unwrap();
    allocate_io(&mut dev, &bm, 6, 26).unwrap();
    assert_eq!(find_free_run_io(&mut dev, &bm, 4, 4).unwrap(), Some(2));
    assert_eq!(find_free_run_io(&mut dev, &bm, 5, 4).unwrap(), None);
}
