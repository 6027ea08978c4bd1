//! What the formats promise of one another, on concrete records and blocks.

use std::cmp::Ordering;

use fs_ntfs::attr_io::{
    attr_off, decode_attr_name, describe_attributes, find_attribute, iter_attributes,
    resident_value_start, AttrType,
};
use fs_ntfs::attr_resize::{insert_attribute_sorted, replace_attribute, set_resident_value};
use fs_ntfs::bitmap::{
    allocate_io, count_free_io, find_free_run_io, free_io, locate_bitmap_io, BitmapLocation,
};
use fs_ntfs::block_io::BlockIo;
use fs_ntfs::compression::decompress_unit;
use fs_ntfs::data_runs::{decode_runs, encode_runs, signed_bytes_needed, DataRun};
use fs_ntfs::ea_io;
use fs_ntfs::idx_block::load_for_directory_io;
use fs_ntfs::index_io::{
    build_file_name_index_entry, collect_indx_block_entries, compare_names,
    find_entry_in_indx_block, insert_entry_into_indx_block,
    insert_entry_into_indx_block_with_collation, refuse_if_interior, remove_index_entry,
    rename_filename_attribute_same_length, BlockKind, IE_FLAGS, IE_LENGTH,
};
use fs_ntfs::mft_io::{
    apply_fixup_on_read, apply_fixup_on_read_magic, apply_fixup_on_write,
    apply_fixup_on_write_magic, cluster_span, BootParams,
};
use fs_ntfs::upcase::UpcaseTable;

fn params() -> BootParams {
    BootParams {
        bytes_per_sector: 512,
        sectors_per_cluster: 8,
        cluster_size: 4096,
        mft_lcn: 4,
        file_record_size: 1024,
        total_sectors: 800,
        serial_number: 0,
        oem_id: *b"NTFS    ",
    }
}

// --- fixups ---

fn file_record() -> Vec<u8> {
    let mut r: Vec<u8> = (0..1024usize).map(|i| (i % 251) as u8).collect();
    r[0..4].copy_from_slice(b"FILE");
    r[4..6].copy_from_slice(&0x30u16.to_le_bytes());
    r[6..8].copy_from_slice(&3u16.to_le_bytes());
    r[0x30..0x32].copy_from_slice(&7u16.to_le_bytes());
    r
}

#[test]
fn what_is_sealed_for_writing_reads_back() {
    let clean = file_record();
    let mut r = clean.clone();
    apply_fixup_on_write(&mut r, 512).unwrap();
    assert_eq!(&r[0x30..0x32], &[8, 0], "the next number");
    assert_eq!(&r[510..512], &[8, 0]);
    assert_eq!(&r[1022..1024], &[8, 0]);
    assert_eq!(&r[0x32..0x34], &clean[510..512]);
    apply_fixup_on_read(&mut r, 512).unwrap();
    assert_eq!(&r[510..512], &clean[510..512]);
    assert_eq!(&r[1022..1024], &clean[1022..1024]);
}

#[test]
fn the_number_after_the_greatest_is_one() {
    let mut r = file_record();
    r[0x30..0x32].copy_from_slice(&[0xFF, 0xFF]);
    apply_fixup_on_write(&mut r, 512).unwrap();
    assert_eq!(&r[0x30..0x32], &[1, 0]);
}

#[test]
fn a_torn_record_is_refused_and_left() {
    let mut r = file_record();
    apply_fixup_on_write(&mut r, 512).unwrap();
    r[1023] ^= 1;
    let torn = r.clone();
    assert_eq!(
        apply_fixup_on_read(&mut r, 512).unwrap_err(),
        "sector 1 of the record does not end with the update sequence number"
    );
    assert_eq!(r, torn);
    assert_eq!(
        apply_fixup_on_read_magic(&mut r, 512, b"INDX").unwrap_err(),
        "the record does not begin with its magic"
    );
    r[6] = 4;
    assert_eq!(
        apply_fixup_on_write_magic(&mut r, 512, b"FILE").unwrap_err(),
        "the update sequence array does not fit the record"
    );
}

// --- places on the device ---

#[test]
fn a_transfer_stays_inside_the_volume() {
    let p = params();
    assert_eq!(p.volume_bytes(), 409_600);
    assert_eq!(p.cluster_capacity(), 100);
    assert_eq!(cluster_span(&p, 10, 2, 5, 100, u64::MAX).unwrap(), 12 * 4096 + 5);
    assert!(cluster_span(&p, 99, 0, 0, 4096, u64::MAX).is_ok());
    assert_eq!(
        cluster_span(&p, 99, 0, 1, 4096, u64::MAX).unwrap_err(),
        "a transfer of 4096 bytes at byte 1 of cluster 99 ends past the 409600 bytes of the volume"
    );
    assert!(cluster_span(&p, 10, 0, 0, 4096, 40_000).is_err(), "past the device");
    assert!(cluster_span(&p, u64::MAX, u64::MAX, 0, 1, u64::MAX).is_err());
}

// --- attributes ---

const ATTRS: usize = 0x38;

/// A resident attribute with the name and the value.
fn resident(type_code: u32, name: &[u16], value: &[u8]) -> Vec<u8> {
    let value_at = 24 + name.len() * 2;
    let length = (value_at + value.len() + 7) & !7;
    let mut a = vec![0u8; length];
    a[0..4].copy_from_slice(&type_code.to_le_bytes());
    a[attr_off::LENGTH..attr_off::LENGTH + 4].copy_from_slice(&(length as u32).to_le_bytes());
    a[attr_off::NAME_LENGTH] = name.len() as u8;
    a[attr_off::NAME_OFFSET] = 24;
    let at = attr_off::RESIDENT_VALUE_LENGTH;
    a[at..at + 4].copy_from_slice(&(value.len() as u32).to_le_bytes());
    a[attr_off::RESIDENT_VALUE_OFFSET] = value_at as u8;
    for (i, c) in name.iter().enumerate() {
        a[24 + 2 * i..26 + 2 * i].copy_from_slice(&c.to_le_bytes());
    }
    a[value_at..value_at + value.len()].copy_from_slice(value);
    a
}

/// A non-resident attribute with the name, the length and the runs.
fn nonresident(type_code: u32, name: &[u16], length: u64, pairs: &[u8]) -> Vec<u8> {
    let pairs_at = 64 + name.len() * 2;
    let total = (pairs_at + pairs.len() + 7) & !7;
    let mut a = vec![0u8; total];
    a[0..4].copy_from_slice(&type_code.to_le_bytes());
    a[attr_off::LENGTH..attr_off::LENGTH + 4].copy_from_slice(&(total as u32).to_le_bytes());
    a[attr_off::NON_RESIDENT] = 1;
    a[attr_off::NAME_LENGTH] = name.len() as u8;
    a[attr_off::NAME_OFFSET] = 64;
    let at = attr_off::NONRES_DATA_LENGTH;
    a[at..at + 8].copy_from_slice(&length.to_le_bytes());
    a[attr_off::NONRES_MAPPING_PAIRS_OFFSET] = pairs_at as u8;
    for (i, c) in name.iter().enumerate() {
        a[64 + 2 * i..66 + 2 * i].copy_from_slice(&c.to_le_bytes());
    }
    a[pairs_at..pairs_at + pairs.len()].copy_from_slice(pairs);
    a
}

/// A record with the attributes.
fn record(attrs: &[Vec<u8>]) -> Vec<u8> {
    let mut r = vec![0u8; 4096];
    r[0x14] = ATTRS as u8;
    let mut at = ATTRS;
    for a in attrs {
        r[at..at + a.len()].copy_from_slice(a);
        at += a.len();
    }
    r[at..at + 4].copy_from_slice(&[0xFF; 4]);
    let used = (at + 4 + 7) & !7;
    r[0x18..0x1C].copy_from_slice(&(used as u32).to_le_bytes());
    r[0x1C..0x20].copy_from_slice(&4096u32.to_le_bytes());
    r
}

fn i30() -> Vec<u16> {
    "$I30".encode_utf16().collect()
}

fn types(r: &[u8]) -> Vec<u32> {
    iter_attributes(r).iter().map(|a| a.type_code).collect()
}

fn value(r: &[u8], t: AttrType) -> Vec<u8> {
    let loc = find_attribute(r, t, None).unwrap();
    let at = resident_value_start(&loc).unwrap();
    r[at..at + loc.resident_value_length.unwrap() as usize].to_vec()
}

#[test]
fn attributes_lie_one_behind_the_other() {
    let r = record(&[
        resident(0x10, &[], &[1; 48]),
        resident(0x30, &[], &[2; 70]),
        nonresident(0x80, &[], 4096, &[0x11, 1, 5, 0]),
    ]);
    let locs = iter_attributes(&r);
    assert_eq!(locs.len(), 3);
    for w in locs.windows(2) {
        assert!(w[0].attr_offset + w[0].attr_length <= w[1].attr_offset);
    }
}

#[test]
fn a_value_that_was_set_is_read_back_and_the_rest_stays() {
    let mut r = record(&[
        resident(0x10, &[], b"first"),
        resident(0x80, &[], b"data"),
        resident(0x90, &i30(), b"index"),
    ]);
    let at = find_attribute(&r, AttrType::Data, None).unwrap().attr_offset;
    set_resident_value(&mut r, at, b"a much longer value than before").unwrap();
    assert_eq!(types(&r), vec![0x10, 0x80, 0x90]);
    assert_eq!(value(&r, AttrType::Data), b"a much longer value than before");
    assert_eq!(value(&r, AttrType::StandardInformation), b"first");
    let root = find_attribute(&r, AttrType::IndexRoot, Some("$I30")).unwrap();
    let at = resident_value_start(&root).unwrap();
    assert_eq!(&r[at..at + 5], b"index");
}

#[test]
fn an_attribute_is_replaced_in_its_place() {
    let mut r = record(&[resident(0x10, &[], b"first"), resident(0x80, &[], b"data")]);
    replace_attribute(&mut r, ATTRS, &resident(0x10, &[], &[7; 40])).unwrap();
    assert_eq!(value(&r, AttrType::StandardInformation), vec![7; 40]);
    assert_eq!(value(&r, AttrType::Data), b"data");
    assert_eq!(
        replace_attribute(&mut r, ATTRS, &[0; 12]).unwrap_err(),
        "replace_attribute: new_attr length 12 not 8-aligned non-zero"
    );
    assert_eq!(
        replace_attribute(&mut r, ATTRS, &[0; 16]).unwrap_err(),
        "replace_attribute: header length 0 != buffer length 16"
    );
    assert!(replace_attribute(&mut r, ATTRS, &resident(0x10, &[], &[0; 4000]))
        .unwrap_err()
        .contains("exceeds record capacity (bytes_used="));
}

#[test]
fn an_inserted_attribute_keeps_the_order_of_types() {
    let mut r = record(&[resident(0x10, &[], b"a"), resident(0x80, &[], b"b")]);
    insert_attribute_sorted(&mut r, &resident(0x30, &[], b"c")).unwrap();
    insert_attribute_sorted(&mut r, &resident(0x90, &[], b"d")).unwrap();
    assert_eq!(types(&r), vec![0x10, 0x30, 0x80, 0x90]);
    assert_eq!(value(&r, AttrType::FileName), b"c");
}

#[test]
fn a_name_with_half_a_pair_is_still_told() {
    let r = record(&[resident(0x80, &[0x41, 0xD800], b"x"), resident(0x777, &[], b"")]);
    let locs = iter_attributes(&r);
    assert_eq!(decode_attr_name(&r, &locs[0]), "A\u{FFFD}");
    assert_eq!(describe_attributes(&r)[1].type_label, "?(0x777)");
}

#[test]
fn only_the_first_of_two_names_is_renamed() {
    let mut key = vec![0u8; 0x42];
    key[0x40] = 1;
    key.extend_from_slice(&[b'a', 0]);
    let mut r = record(&[resident(0x30, &[], &key), resident(0x30, &[], &key)]);
    rename_filename_attribute_same_length(&mut r, "a", "b").unwrap();
    let locs = iter_attributes(&r);
    let letter = |i: usize| r[resident_value_start(&locs[i]).unwrap() + 0x42];
    assert_eq!((letter(0), letter(1)), (b'b', b'a'));
}

// --- run lists ---

#[test]
fn runs_that_were_written_down_are_read_back() {
    let runs: Vec<DataRun> = vec![
        DataRun { starting_vcn: 0, length: 128, lcn: Some(0x1234_5678) },
        DataRun { starting_vcn: 128, length: 1, lcn: None },
        DataRun { starting_vcn: 129, length: 40_000, lcn: Some(3) },
    ];
    assert_eq!(decode_runs(&encode_runs(&runs).unwrap()).unwrap(), runs);
    assert_eq!(
        [0, 127, 128, -128, -129, i64::MAX, i64::MIN].map(signed_bytes_needed),
        [1, 1, 2, 1, 2, 8, 8]
    );
}

// --- extended attributes ---

fn ea(name: &[u8], value: &[u8]) -> ea_io::Ea {
    ea_io::Ea {
        flags: 0,
        name: name.to_vec(),
        value: value.to_vec(),
    }
}

#[test]
fn extended_attributes_are_read_from_a_record() {
    let list = vec![ea(b"KEY", b"value"), ea(b"K2", b"")];
    let r = record(&[resident(0xE0, &[], &ea_io::encode(&list).unwrap())]);
    assert_eq!(ea_io::read_from_record(&r).unwrap(), list);
    assert_eq!(ea_io::read_from_record(&record(&[])).unwrap(), Vec::new());
    let r = record(&[nonresident(0xE0, &[], 100, &[0x11, 1, 5, 0])]);
    assert_eq!(
        ea_io::read_from_record(&r).unwrap_err(),
        "$EA is non-resident (MVP only supports resident EAs)"
    );
}

#[test]
fn removing_one_extended_attribute_keeps_the_others() {
    let mut list = vec![ea(b"A", b"1"), ea(b"B", b"2"), ea(b"C", b"3")];
    ea_io::upsert(&mut list, ea(b"b", b"22"));
    assert_eq!(list[1].value, b"22");
    assert!(ea_io::remove_by_name(&mut list, b"B"));
    assert_eq!(list, vec![ea(b"A", b"1"), ea(b"C", b"3")]);
}

// --- compressed units ---

#[test]
fn a_reference_reaches_over_what_it_writes() {
    // "ab", and then ten bytes from two back.
    let stream = [0x04, 0xB0, 0b100, b'a', b'b', 0x07, 0x10];
    assert_eq!(decompress_unit(&stream, 4096).unwrap(), b"abababababab");
    let before_start = [0x03, 0xB0, 0b10, b'a', 0x00, 0x10];
    assert!(decompress_unit(&before_start, 4096).is_err());
}

// --- index blocks ---

/// An INDX block without entries.
fn empty_block() -> Vec<u8> {
    let mut b = vec![0u8; 4096];
    b[0..4].copy_from_slice(b"INDX");
    b[0x18..0x1C].copy_from_slice(&0x28u32.to_le_bytes());
    b[0x1C..0x20].copy_from_slice(&0x38u32.to_le_bytes());
    b[0x20..0x24].copy_from_slice(&0xFE8u32.to_le_bytes());
    b[0x40 + IE_LENGTH] = 16;
    b[0x40 + IE_FLAGS] = 2;
    b
}

fn entry(number: u64, name: &str) -> Vec<u8> {
    build_file_name_index_entry(number, 5, name, 0, false, 1).unwrap()
}

fn names(b: &[u8]) -> Vec<String> {
    let mut out = Vec::new();
    collect_indx_block_entries(b, &mut out).unwrap();
    out.into_iter().map(|e| e.name).collect()
}

#[test]
fn a_block_keeps_its_names_in_order() {
    let mut b = empty_block();
    for (i, name) in ["pear", "Apple", "fig", "zebra", "banana"].iter().enumerate() {
        insert_entry_into_indx_block(&mut b, &entry(i as u64 + 30, name), name).unwrap();
    }
    assert_eq!(names(&b), vec!["Apple", "banana", "fig", "pear", "zebra"]);
    let loc = find_entry_in_indx_block(&b, "FIG", None).unwrap().unwrap();
    assert_eq!(loc.file_record_number, 32);
    remove_index_entry(&mut b, &loc, BlockKind::IndexAllocation).unwrap();
    assert_eq!(names(&b), vec!["Apple", "banana", "pear", "zebra"]);
    assert!(find_entry_in_indx_block(&b, "fig", None).unwrap().is_none());
}

#[test]
fn removing_what_was_inserted_restores_the_entries() {
    let mut b = empty_block();
    insert_entry_into_indx_block(&mut b, &entry(30, "a"), "a").unwrap();
    let before = b.clone();
    insert_entry_into_indx_block(&mut b, &entry(31, "b"), "b").unwrap();
    assert_ne!(b, before);
    let loc = find_entry_in_indx_block(&b, "b", None).unwrap().unwrap();
    remove_index_entry(&mut b, &loc, BlockKind::IndexAllocation).unwrap();
    assert_eq!(b, before);
}

#[test]
fn an_interior_node_takes_no_entry() {
    assert!(refuse_if_interior(0, "x").is_ok());
    assert!(refuse_if_interior(1, "x").unwrap_err().contains("sub-nodes"));
}

#[test]
fn a_table_decides_what_is_the_same_name() {
    let mut units: Vec<u16> = (0..=0xFFu16).collect();
    units[0xE9] = 0xC9;
    let table = UpcaseTable::new(units);
    assert_eq!(table.fold(0xE9), 0xC9);
    assert_eq!(table.fold(0x1234), 0x1234);
    assert_eq!(table.cmp_names(&[0xE9], &[0xC9]), Ordering::Equal);
    assert_eq!(compare_names(&[0xE9], &[0xC9], Some(&table)), Ordering::Equal);
    assert_eq!(compare_names(&[0xE9], &[0xC9], None), Ordering::Greater);
    let mut b = empty_block();
    insert_entry_into_indx_block_with_collation(&mut b, &entry(40, "\u{e9}"), "\u{e9}", Some(&table))
        .unwrap();
    assert!(find_entry_in_indx_block(&b, "\u{c9}", Some(&table)).unwrap().is_some());
    assert!(find_entry_in_indx_block(&b, "\u{c9}", None).unwrap().is_none());
}

fn index_root(block_size: u32) -> Vec<u8> {
    let mut v = vec![0u8; 48];
    v[8..12].copy_from_slice(&block_size.to_le_bytes());
    resident(0x90, &i30(), &v)
}

#[test]
fn the_blocks_of_a_directory_are_found_in_its_record() {
    let pairs = [0x11, 2, 9, 0];
    let blocks = nonresident(0xA0, &i30(), 8192, &pairs);
    let r = record(&[index_root(4096), blocks.clone(), resident(0xB0, &i30(), &[3, 0])]);
    let ia = load_for_directory_io(Ok((params(), r)), Err("unused".to_string()))
        .ok()
        .unwrap();
    assert_eq!((ia.block_size, ia.data_length), (4096, 8192));
    assert_eq!(ia.bitmap, vec![3, 0]);
    assert_eq!(ia.allocated_block_vcns(), vec![0, 1]);
    let spilled = record(&[
        index_root(4096),
        blocks.clone(),
        nonresident(0xB0, &i30(), 8, &[0x11, 1, 20, 0]),
    ]);
    let ia = load_for_directory_io(Ok((params(), spilled.clone())), Ok(vec![1]))
        .ok()
        .unwrap();
    assert_eq!(ia.bitmap, vec![1]);
    let why = |r: Vec<u8>| match load_for_directory_io(Ok((params(), r)), Err("gone".to_string())) {
        Err(m) => m,
        Ok(_) => panic!("loaded"),
    };
    assert_eq!(why(spilled), "reading a non-resident $Bitmap:$I30: gone");
    assert_eq!(why(record(&[])), "$INDEX_ROOT:$I30 not found on parent");
    assert_eq!(
        why(record(&[index_root(5000)])),
        "$INDEX_ROOT:$I30 says its blocks are 5000 bytes, which is not an index block size"
    );
    assert_eq!(
        why(record(&[index_root(4096)])),
        "$INDEX_ALLOCATION:$I30 not found"
    );
    assert_eq!(
        why(record(&[index_root(4096), blocks])),
        "$Bitmap:$I30 not found"
    );
}

// --- the bitmap ---

struct Disk(Vec<u8>);

impl BlockIo for Disk {
    fn read_exact_at(&mut self, offset: u64, buf: &mut [u8]) -> Result<(), String> {
        let at = offset as usize;
        buf.copy_from_slice(&self.0[at..at + buf.len()]);
        Ok(())
    }

    fn write_all_at(&mut self, offset: u64, buf: &[u8]) -> Result<(), String> {
        let at = offset as usize;
        self.0[at..at + buf.len()].copy_from_slice(buf);
        Ok(())
    }

    fn size(&self) -> u64 {
        self.0.len() as u64
    }
}

fn located() -> BitmapLocation {
    let r = record(&[nonresident(0x80, &[], 16, &[0x11, 1, 50, 0])]);
    locate_bitmap_io(Ok((params(), r)), Ok((4 * 4096, 8192)), vec![(8 * 4096, 9 * 4096)])
        .ok()
        .unwrap()
}

#[test]
fn the_bitmap_is_found_and_bounded_by_the_volume() {
    let bm = located();
    assert_eq!((bm.value_length, bm.total_bits), (16, 100));
    assert_eq!(bm.mft_clusters, 2);
    assert_eq!(bm.other_protected, vec![(8, 9)]);
    assert!(bm.covers_the_volumes_own(5, 1));
    assert!(bm.covers_the_volumes_own(8, 1));
    assert!(!bm.covers_the_volumes_own(9, 1));
    let e = locate_bitmap_io(Err("no record".to_string()), Ok((0, 0)), vec![]);
    assert_eq!(e.err().unwrap(), "no record");
    let e = locate_bitmap_io(Ok((params(), record(&[]))), Ok((0, 0)), vec![]);
    assert!(e.is_err());
}

#[test]
fn freeing_undoes_allocating() {
    let bm = located();
    let mut d = Disk(vec![0; 100 * 4096]);
    d.0[50 * 4096] = 0xFF;
    let before = d.0.clone();
    let free = count_free_io(&mut d, &bm).unwrap();
    let lcn = find_free_run_io(&mut d, &bm, 20, 60).unwrap().unwrap();
    assert_eq!(lcn, 60);
    allocate_io(&mut d, &bm, lcn, 20).unwrap();
    assert_eq!(count_free_io(&mut d, &bm).unwrap(), free - 20);
    free_io(&mut d, &bm, lcn, 20).unwrap();
    assert_eq!(d.0, before);
}

#[test]
fn a_run_that_was_found_can_be_allocated() {
    let bm = located();
    let mut d = Disk(vec![0; 100 * 4096]);
    for hint in [0, 10, 95, 99, 500] {
        let lcn = find_free_run_io(&mut d, &bm, 7, hint).unwrap().unwrap();
        allocate_io(&mut d, &bm, lcn, 7).unwrap();
    }
    assert_eq!(find_free_run_io(&mut d, &bm, 90, 0).unwrap(), None);
}
