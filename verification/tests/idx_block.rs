//! The blocks of a directory index.

use fs_ntfs::block_io::BlockIo;
use fs_ntfs::chunks::MappedChunk;
use fs_ntfs::data_runs::DataRun;
use fs_ntfs::idx_block::{
    block_of, map_indx_block, read_indx_block_io, undo_block, update_indx_block_io, vcn_to_disk_offset,
    IndexAllocation,
};
use fs_ntfs::mft_io::BootParams;

fn make_ia(
    block_size: u64,
    cluster_size: u64,
    runs: Vec<DataRun>,
    bitmap: Vec<u8>,
    data_length: u64,
) -> IndexAllocation {
    IndexAllocation {
        params: BootParams {
            bytes_per_sector: 512,
            sectors_per_cluster: cluster_size / 512,
            cluster_size,
            mft_lcn: 4,
            file_record_size: 1024,
            // A real boot sector always says how big the volume is,
            // and cluster_span judges every transfer against it. 512 MiB
            // at 512-byte sectors is larger than anything these tests
            // address, so the bound is present without being the thing
            // under test.
            total_sectors: 1 << 20,
            serial_number: 0,
            oem_id: *b"NTFS    ",
        },
        block_size,
        runs,
        bitmap,
        data_length,
    }
}

// --- allocated_block_vcns ---------------------------------------------

#[test]
fn allocated_block_vcns_empty_bitmap_yields_empty() {
    let ia = make_ia(4096, 4096, vec![], vec![0u8; 4], 0);
    assert!(ia.allocated_block_vcns().is_empty());
}

#[test]
fn allocated_block_vcns_decodes_set_bits_in_order() {
    // 4 KiB block size, 4 KiB cluster size → block_size/cluster_size = 1,
    // so block index = VCN.  bitmap byte 0 = 0b0000_0101 ⇒ blocks 0, 2.
    let ia = make_ia(4096, 4096, vec![], vec![0b0000_0101u8], 0);
    let vcns = ia.allocated_block_vcns();
    assert_eq!(vcns, vec![0, 2]);
}

#[test]
fn allocated_block_vcns_spans_multiple_bytes() {
    // Bitmap byte 0 = 0b1000_0000 (bit 7), byte 1 = 0b0000_0010 (bit 1
    // of byte 1 ⇒ block index 9). VCN = block_index for 1:1 block:cluster.
    let ia = make_ia(4096, 4096, vec![], vec![0b1000_0000u8, 0b0000_0010u8], 0);
    let vcns = ia.allocated_block_vcns();
    assert_eq!(vcns, vec![7, 9]);
}

// --- vcn_to_disk_offset ------------------------------------------------

#[test]
fn vcn_to_disk_offset_inside_first_run_uses_cluster_size_arithmetic() {
    let runs = vec![DataRun {
        starting_vcn: 0,
        length: 4,
        lcn: Some(10),
    }];
    let ia = make_ia(4096, 4096, runs, vec![], 4 * 4096);
    // VCN 0 → LCN 10 → byte offset 10 * 4096.
    assert_eq!(vcn_to_disk_offset(&ia, 0, u64::MAX).unwrap(), 10 * 4096);
    // VCN 3 → LCN 13 → byte offset 13 * 4096.
    assert_eq!(vcn_to_disk_offset(&ia, 3, u64::MAX).unwrap(), 13 * 4096);
}

#[test]
fn vcn_to_disk_offset_in_second_run() {
    let runs = vec![
        DataRun {
            starting_vcn: 0,
            length: 2,
            lcn: Some(10),
        },
        DataRun {
            starting_vcn: 2,
            length: 3,
            lcn: Some(20),
        },
    ];
    let ia = make_ia(4096, 4096, runs, vec![], 5 * 4096);
    // VCN 2 maps to LCN 20 + (2-2) = 20.
    assert_eq!(vcn_to_disk_offset(&ia, 2, u64::MAX).unwrap(), 20 * 4096);
    // VCN 4 → LCN 22.
    assert_eq!(vcn_to_disk_offset(&ia, 4, u64::MAX).unwrap(), 22 * 4096);
}

#[test]
fn vcn_to_disk_offset_in_sparse_run_errors() {
    let runs = vec![DataRun {
        starting_vcn: 0,
        length: 4,
        lcn: None,
    }];
    let ia = make_ia(4096, 4096, runs, vec![], 4 * 4096);
    let err = vcn_to_disk_offset(&ia, 1, u64::MAX).unwrap_err();
    assert!(err.contains("sparse"), "{err}");
}

#[test]
fn vcn_to_disk_offset_past_end_errors() {
    let runs = vec![DataRun {
        starting_vcn: 0,
        length: 4,
        lcn: Some(10),
    }];
    let ia = make_ia(4096, 4096, runs, vec![], 4 * 4096);
    let err = vcn_to_disk_offset(&ia, 99, u64::MAX).unwrap_err();
    assert!(err.contains("VCN 99"), "{err}");
    assert!(err.contains("past $INDEX_ALLOCATION length 16384"), "{err}");
}

// --- additional edge cases -------------------------------------------

#[test]
fn allocated_block_vcns_block_size_double_cluster_size() {
    // block_size = 8192, cluster_size = 4096 → VCN per block = 2.
    // Bit 0 (block 0) → VCN 0; bit 1 (block 1) → VCN 2.
    let ia = make_ia(8192, 4096, vec![], vec![0b0000_0011u8], 0);
    let vcns = ia.allocated_block_vcns();
    assert_eq!(vcns, vec![0, 2]);
}

#[test]
fn allocated_block_vcns_all_bits_set_in_one_byte() {
    // 8 blocks all allocated; VCN-per-block = 1 (equal sizes).
    let ia = make_ia(4096, 4096, vec![], vec![0xFF], 0);
    let vcns = ia.allocated_block_vcns();
    assert_eq!(vcns, vec![0, 1, 2, 3, 4, 5, 6, 7]);
}

#[test]
fn allocated_block_vcns_high_bit_of_last_byte() {
    // Bitmap = [0x00, 0x80]: bit 7 of byte 1 = block 15 → VCN 15.
    let ia = make_ia(4096, 4096, vec![], vec![0x00u8, 0x80u8], 0);
    let vcns = ia.allocated_block_vcns();
    assert_eq!(vcns, vec![15]);
}

#[test]
fn vcn_to_disk_offset_small_cluster_size() {
    // cluster_size=512: VCN 0 at LCN 100 → disk = 100*512.
    // The run is 16 clusters so that the two VCNs addressed below
    // each have a whole 8-cluster block behind them; this test is
    // about the arithmetic, and the straddle check has its own.
    let runs = vec![DataRun {
        starting_vcn: 0,
        length: 16,
        lcn: Some(100),
    }];
    let ia = make_ia(4096, 512, runs, vec![], 16 * 512);
    assert_eq!(vcn_to_disk_offset(&ia, 0, u64::MAX).unwrap(), 100 * 512);
    assert_eq!(vcn_to_disk_offset(&ia, 1, u64::MAX).unwrap(), 101 * 512);
}

#[test]
fn a_block_that_straddles_a_run_boundary_is_refused() {
    // 4 KiB blocks on a 512-byte-cluster volume: a block is eight
    // clusters. The first run holds four of them, so the block at
    // VCN 0 runs off its end and the tail belongs to whatever
    // follows LCN 103 -- not to LCN 500, where this attribute's
    // next four clusters actually are.
    let runs = vec![
        DataRun {
            starting_vcn: 0,
            length: 4,
            lcn: Some(100),
        },
        DataRun {
            starting_vcn: 4,
            length: 4,
            lcn: Some(500),
        },
    ];
    let ia = make_ia(4096, 512, runs, vec![0x01], 4096);
    let err = vcn_to_disk_offset(&ia, 0, u64::MAX).unwrap_err();
    assert!(err.contains("straddles"), "{err}");
}

#[test]
fn a_block_that_exactly_fills_its_run_is_allowed() {
    let runs = vec![DataRun {
        starting_vcn: 0,
        length: 8,
        lcn: Some(100),
    }];
    let ia = make_ia(4096, 512, runs, vec![0x01], 4096);
    assert_eq!(vcn_to_disk_offset(&ia, 0, u64::MAX).unwrap(), 100 * 512);
}

#[test]
fn a_mapped_block_past_the_declared_allocation_length_is_refused() {
    let runs = vec![DataRun {
        starting_vcn: 0,
        length: 8,
        lcn: Some(100),
    }];
    // Eight clusters are physically mapped, but only four belong to
    // the declared value. The remaining clusters cannot be read or
    // written as part of an INDX block.
    let ia = make_ia(4096, 512, runs, vec![0x01], 2048);
    let mut dev = MemDev(vec![0; 110 * 512]);
    assert!(map_indx_block(&ia, 0, dev.size())
        .unwrap_err()
        .contains("length"));
    assert!(vcn_to_disk_offset(&ia, 0, dev.size())
        .unwrap_err()
        .contains("length"));
    assert!(read_indx_block_io(&mut dev, &ia, 0)
        .unwrap_err()
        .contains("length"));
}

#[test]
fn vcn_to_disk_offset_at_run_boundary_is_exact() {
    // Run covers VCNs 0..4. VCN 3 (last) is inside; VCN 4 (first of next) errors.
    let runs = vec![DataRun {
        starting_vcn: 0,
        length: 4,
        lcn: Some(10),
    }];
    let ia = make_ia(4096, 4096, runs, vec![], 4 * 4096);
    assert!(vcn_to_disk_offset(&ia, 3, u64::MAX).is_ok());
    assert!(vcn_to_disk_offset(&ia, 4, u64::MAX).is_err());
}

// --- read_indx_block_io / update_indx_block_io -------------------------

struct MemDev(Vec<u8>);

impl BlockIo for MemDev {
    fn read_exact_at(&mut self, offset: u64, buf: &mut [u8]) -> Result<(), String> {
        let off = offset as usize;
        buf.copy_from_slice(&self.0[off..off + buf.len()]);
        Ok(())
    }
    fn write_all_at(&mut self, offset: u64, buf: &[u8]) -> Result<(), String> {
        let off = offset as usize;
        self.0[off..off + buf.len()].copy_from_slice(buf);
        Ok(())
    }
    fn size(&self) -> u64 {
        self.0.len() as u64
    }
}

/// Build a 4096-byte INDX block with a valid USA that passes fixup.
/// bytes_per_sector=512 → 8 sectors → usa_count=9, usa_offset=0x28.
fn valid_indx_block() -> Vec<u8> {
    const BLOCK: usize = 4096;
    const BPS: usize = 512;
    const SECTORS: usize = BLOCK / BPS;
    const USA_OFFSET: usize = 0x28;
    const USN: [u8; 2] = [0x01, 0x00];

    let mut block = vec![0u8; BLOCK];
    block[0..4].copy_from_slice(b"INDX");
    block[0x04..0x06].copy_from_slice(&(USA_OFFSET as u16).to_le_bytes());
    block[0x06..0x08].copy_from_slice(&((SECTORS + 1) as u16).to_le_bytes());
    block[USA_OFFSET..USA_OFFSET + 2].copy_from_slice(&USN);
    // Each sector's last 2 bytes must equal USN for fixup to accept.
    for s in 0..SECTORS {
        let tail = (s + 1) * BPS - 2;
        block[tail..tail + 2].copy_from_slice(&USN);
    }
    block
}

fn ia_with_run(lcn: u64, cluster_size: u64) -> IndexAllocation {
    make_ia(
        4096,
        cluster_size,
        vec![DataRun {
            starting_vcn: 0,
            length: 1,
            lcn: Some(lcn),
        }],
        vec![0x01],
        4096,
    )
}

#[test]
fn read_indx_block_io_returns_clean_block() {
    let block = valid_indx_block();
    // Place block at cluster 0 (disk offset 0).
    let mut dev = MemDev(block.clone());
    let ia = ia_with_run(0, 4096);
    let result = read_indx_block_io(&mut dev, &ia, 0).unwrap();
    assert_eq!(&result[0..4], b"INDX");
    assert_eq!(result.len(), 4096);
}

#[test]
fn read_indx_block_io_bad_magic_fails() {
    let mut block = valid_indx_block();
    block[0] = 0xFF; // corrupt magic
    let mut dev = MemDev(block);
    let ia = ia_with_run(0, 4096);
    assert!(read_indx_block_io(&mut dev, &ia, 0).is_err());
}

#[test]
fn read_indx_block_io_usn_mismatch_fails() {
    let mut block = valid_indx_block();
    // Corrupt the USN at the first sector tail.
    block[510] = 0xFF;
    block[511] = 0xFF;
    let mut dev = MemDev(block);
    let ia = ia_with_run(0, 4096);
    assert!(read_indx_block_io(&mut dev, &ia, 0).is_err());
}

#[test]
fn update_indx_block_io_mutates_block() {
    let block = valid_indx_block();
    let mut dev = MemDev(block);
    let ia = ia_with_run(0, 4096);
    // Write a marker byte inside the INDX data area (past the header).
    update_indx_block_io(&mut dev, &ia, 0, |blk| {
        blk[0x40] = 0xAB;
        Ok(())
    })
    .unwrap();
    // Read back and verify the byte survived the write-fixup round-trip.
    let readback = read_indx_block_io(&mut dev, &ia, 0).unwrap();
    assert_eq!(readback[0x40], 0xAB);
}

fn fragmented_ia() -> IndexAllocation {
    make_ia(
        4096,
        512,
        vec![
            DataRun {
                starting_vcn: 0,
                length: 4,
                lcn: Some(100),
            },
            DataRun {
                starting_vcn: 4,
                length: 4,
                lcn: Some(500),
            },
        ],
        vec![0x01],
        4096,
    )
}

fn fragmented_storage() -> Vec<u8> {
    let cluster = 512usize;
    let mut storage = vec![0x4Eu8; 510 * cluster];
    let block = valid_indx_block();
    storage[100 * cluster..104 * cluster].copy_from_slice(&block[..4 * cluster]);
    storage[500 * cluster..504 * cluster].copy_from_slice(&block[4 * cluster..]);
    storage
}

#[test]
fn a_4k_block_split_across_two_512_byte_cluster_runs_round_trips() {
    let cluster = 512usize;
    let storage = fragmented_storage();
    let neighbour_after_first = storage[104 * cluster..108 * cluster].to_vec();
    let neighbour_after_second = storage[504 * cluster..508 * cluster].to_vec();
    let mut dev = MemDev(storage);
    let ia = fragmented_ia();

    let read = read_indx_block_io(&mut dev, &ia, 0).unwrap();
    assert_eq!(&read[0..4], b"INDX");
    update_indx_block_io(&mut dev, &ia, 0, |block| {
        block[0x40] = 0xAB;
        block[3000] = 0xCD;
        Ok(())
    })
    .unwrap();
    let readback = read_indx_block_io(&mut dev, &ia, 0).unwrap();
    assert_eq!(readback[0x40], 0xAB);
    assert_eq!(readback[3000], 0xCD);
    assert_eq!(&dev.0[104 * cluster..108 * cluster], &neighbour_after_first);
    assert_eq!(
        &dev.0[504 * cluster..508 * cluster],
        &neighbour_after_second
    );
}

struct FailSecondWrite {
    inner: MemDev,
    writes: usize,
}

impl BlockIo for FailSecondWrite {
    fn read_exact_at(&mut self, offset: u64, buf: &mut [u8]) -> Result<(), String> {
        self.inner.read_exact_at(offset, buf)
    }

    fn write_all_at(&mut self, offset: u64, buf: &[u8]) -> Result<(), String> {
        self.writes += 1;
        if self.writes == 2 {
            // A failed write is allowed to have changed a prefix. The
            // rollback must therefore include this chunk, not just the
            // first chunk that completed.
            let partial = 17usize.min(buf.len());
            self.inner.write_all_at(offset, &buf[..partial])?;
            return Err("injected second-piece failure".to_string());
        }
        self.inner.write_all_at(offset, buf)
    }

    fn size(&self) -> u64 {
        self.inner.size()
    }
}

#[test]
fn a_partial_piecewise_write_is_rolled_back_to_the_raw_preimage() {
    let storage = fragmented_storage();
    let before = storage.clone();
    let mut dev = FailSecondWrite {
        inner: MemDev(storage),
        writes: 0,
    };

    let err = update_indx_block_io(&mut dev, &fragmented_ia(), 0, |block| {
        block[0x40] = 0xAB;
        block[3000] = 0xCD;
        Ok(())
    })
    .unwrap_err();

    assert!(err.contains("injected second-piece failure"), "{err}");
    assert_eq!(dev.inner.0, before);
}

#[test]
fn update_indx_block_io_block_at_nonzero_lcn() {
    let cluster_size = 4096u64;
    let lcn = 5u64;
    let disk_offset = lcn * cluster_size;
    let block = valid_indx_block();
    // Allocate device large enough to hold the block at its disk position.
    let mut storage = vec![0u8; (disk_offset as usize) + 4096];
    storage[disk_offset as usize..disk_offset as usize + 4096].copy_from_slice(&block);
    let mut dev = MemDev(storage);
    let ia = ia_with_run(lcn, cluster_size);
    let result = read_indx_block_io(&mut dev, &ia, 0).unwrap();
    assert_eq!(&result[0..4], b"INDX");
}

#[test]
fn undoing_a_write_puts_back_what_was_touched() {
    let list = [
        MappedChunk {
            disk_offset: 4,
            cursor: 0,
            len: 2,
        },
        MappedChunk {
            disk_offset: 0,
            cursor: 2,
            len: 2,
        },
        MappedChunk {
            disk_offset: 8,
            cursor: 4,
            len: 2,
        },
    ];
    let mut dev = MemDev(b"..........".to_vec());
    let said = undo_block(&mut dev, &list, 1, b"abcdef", "torn".to_string());
    assert_eq!(said, "write indx: torn");
    assert_eq!(&dev.0, b"cd..ab....");
    let mut short = MemDev(b"...".to_vec());
    let said = undo_block(&mut short, &list, 1, b"abcdef", "torn".to_string());
    assert!(said.starts_with("write indx: torn; and rolling the INDX block back failed too ("));
    assert!(said.ends_with(") \u{2014} run chkdsk"));
    assert_eq!(&short.0, b"cd.");
}

#[test]
fn a_block_begins_with_its_letters() {
    let mut block = valid_indx_block();
    assert_eq!(&block_of(block.clone(), 3, 0x1000, 512).unwrap()[..4], b"INDX");
    block[0] = b'B';
    assert_eq!(
        block_of(block, 3, 0x1000, 512).unwrap_err(),
        "block at VCN 3 (disk 0x1000) is not an INDX record: [42, 4e, 44, 58]"
    );
}
