//! Walking and naming the attributes of a record.

use fs_ntfs::attr_io::{
    attr_name_equals, attr_off, decode_attr_name, describe_attributes, find_attribute,
    iter_attributes, read_u16_le, read_u32_le, read_u64_le, AttrType, END_MARKER,
    REC_OFF_ATTRS_OFFSET, REC_OFF_BYTES_USED,
};

/// Builder for a synthetic MFT record with manually-placed attributes.
/// Sets attrs_offset, bytes_used, and the 0xFFFFFFFF terminator. Does
/// NOT include FILE magic or USA fixup — those live in `mft_io`; this
/// is purely a fixture for the attribute walker.
struct RecordBuilder {
    rec: Vec<u8>,
    cursor: usize,
}
impl RecordBuilder {
    fn new(size: usize, attrs_offset: u16) -> Self {
        let mut rec = vec![0u8; size];
        rec[REC_OFF_ATTRS_OFFSET..REC_OFF_ATTRS_OFFSET + 2]
            .copy_from_slice(&attrs_offset.to_le_bytes());
        Self {
            rec,
            cursor: attrs_offset as usize,
        }
    }
    /// Append a minimal resident attribute. Returns self for chaining.
    fn push_resident(
        mut self,
        type_code: u32,
        attr_id: u16,
        value: &[u8],
        name_utf16: &[u16],
    ) -> Self {
        let header_size = 24usize; // up through value_offset
        let name_size = name_utf16.len() * 2;
        let value_offset = header_size + name_size;
        let total_unaligned = value_offset + value.len();
        let total = (total_unaligned + 7) & !7; // 8-byte align
        let start = self.cursor;
        // Header
        self.rec[start..start + 4].copy_from_slice(&type_code.to_le_bytes());
        self.rec[start + attr_off::LENGTH..start + attr_off::LENGTH + 4]
            .copy_from_slice(&(total as u32).to_le_bytes());
        self.rec[start + attr_off::NON_RESIDENT] = 0;
        self.rec[start + attr_off::NAME_LENGTH] = name_utf16.len() as u8;
        self.rec[start + attr_off::NAME_OFFSET..start + attr_off::NAME_OFFSET + 2]
            .copy_from_slice(&(header_size as u16).to_le_bytes());
        self.rec[start + attr_off::ATTRIBUTE_ID..start + attr_off::ATTRIBUTE_ID + 2]
            .copy_from_slice(&attr_id.to_le_bytes());
        self.rec[start + attr_off::RESIDENT_VALUE_LENGTH
            ..start + attr_off::RESIDENT_VALUE_LENGTH + 4]
            .copy_from_slice(&(value.len() as u32).to_le_bytes());
        self.rec[start + attr_off::RESIDENT_VALUE_OFFSET
            ..start + attr_off::RESIDENT_VALUE_OFFSET + 2]
            .copy_from_slice(&(value_offset as u16).to_le_bytes());
        // Name bytes
        for (i, &codeunit) in name_utf16.iter().enumerate() {
            self.rec[start + header_size + i * 2..start + header_size + i * 2 + 2]
                .copy_from_slice(&codeunit.to_le_bytes());
        }
        // Value bytes
        self.rec[start + value_offset..start + value_offset + value.len()]
            .copy_from_slice(value);
        self.cursor = start + total;
        self
    }
    /// Append a minimal non-resident attribute with the given data
    /// length and mapping_pairs blob.
    fn push_nonresident(
        mut self,
        type_code: u32,
        data_length: u64,
        mapping_pairs: &[u8],
    ) -> Self {
        let header_size = 64usize; // non-resident header is 64 bytes
        let mp_offset = header_size;
        let total_unaligned = mp_offset + mapping_pairs.len();
        let total = (total_unaligned + 7) & !7;
        let start = self.cursor;
        self.rec[start..start + 4].copy_from_slice(&type_code.to_le_bytes());
        self.rec[start + attr_off::LENGTH..start + attr_off::LENGTH + 4]
            .copy_from_slice(&(total as u32).to_le_bytes());
        self.rec[start + attr_off::NON_RESIDENT] = 1;
        self.rec[start + attr_off::NAME_LENGTH] = 0;
        self.rec[start + attr_off::NAME_OFFSET..start + attr_off::NAME_OFFSET + 2]
            .copy_from_slice(&0u16.to_le_bytes());
        self.rec
            [start + attr_off::NONRES_DATA_LENGTH..start + attr_off::NONRES_DATA_LENGTH + 8]
            .copy_from_slice(&data_length.to_le_bytes());
        self.rec[start + attr_off::NONRES_MAPPING_PAIRS_OFFSET
            ..start + attr_off::NONRES_MAPPING_PAIRS_OFFSET + 2]
            .copy_from_slice(&(mp_offset as u16).to_le_bytes());
        self.rec[start + mp_offset..start + mp_offset + mapping_pairs.len()]
            .copy_from_slice(mapping_pairs);
        self.cursor = start + total;
        self
    }
    fn finish(mut self) -> Vec<u8> {
        // 0xFFFFFFFF end marker.
        self.rec[self.cursor..self.cursor + 4].copy_from_slice(&END_MARKER.to_le_bytes());
        // bytes_used = cursor + 4 (the end marker).
        let bu = (self.cursor + 4) as u32;
        self.rec[REC_OFF_BYTES_USED..REC_OFF_BYTES_USED + 4].copy_from_slice(&bu.to_le_bytes());
        self.rec
    }
}

// --- AttrType::from_u32 ------------------------------------------------

#[test]
fn attr_type_from_u32_known_values() {
    assert_eq!(
        AttrType::from_u32(0x10),
        Some(AttrType::StandardInformation)
    );
    assert_eq!(AttrType::from_u32(0x30), Some(AttrType::FileName));
    assert_eq!(AttrType::from_u32(0x80), Some(AttrType::Data));
    assert_eq!(AttrType::from_u32(0xE0), Some(AttrType::ExtendedAttribute));
    assert_eq!(AttrType::from_u32(0xFF), None);
    assert_eq!(AttrType::from_u32(0), None);
}

// --- iter_attributes ---------------------------------------------------

#[test]
fn an_attribute_whose_value_is_not_inside_it_is_not_yielded() {
    let good = RecordBuilder::new(1024, 0x38)
        .push_resident(0x10, 1, b"standard information", &[])
        .push_nonresident(0x80, 4096, &[0x21, 0x01, 0x00])
        .finish();
    assert_eq!(iter_attributes(&good).len(), 2, "the control record");

    let mut changed = good.clone();
    let data_at = iter_attributes(&good)
        .into_iter()
        .find(|a| a.type_code == 0x80)
        .expect("the $DATA attribute")
        .attr_offset;
    changed[data_at + attr_off::NONRES_MAPPING_PAIRS_OFFSET
        ..data_at + attr_off::NONRES_MAPPING_PAIRS_OFFSET + 2]
        .copy_from_slice(&0xFFFFu16.to_le_bytes());
    assert_eq!(
        iter_attributes(&changed).len(),
        1,
        "the $DATA attribute names a run list outside itself and was yielded anyway"
    );

    let si_at = iter_attributes(&good)
        .into_iter()
        .find(|a| a.type_code == 0x10)
        .expect("the $STANDARD_INFORMATION attribute")
        .attr_offset;
    let mut changed = good.clone();
    changed
        [si_at + attr_off::RESIDENT_VALUE_LENGTH..si_at + attr_off::RESIDENT_VALUE_LENGTH + 4]
        .copy_from_slice(&0xFFFFu32.to_le_bytes());
    assert!(
        !iter_attributes(&changed).into_iter().any(|a| a.type_code == 0x10),
        "a resident value 65535 bytes long was yielded from an attribute of 48"
    );

    // And one that starts outside it entirely.
    let mut changed = good.clone();
    changed
        [si_at + attr_off::RESIDENT_VALUE_OFFSET..si_at + attr_off::RESIDENT_VALUE_OFFSET + 2]
        .copy_from_slice(&0xFFF0u16.to_le_bytes());
    assert!(!iter_attributes(&changed).into_iter().any(|a| a.type_code == 0x10));
}

#[test]
fn an_attribute_shorter_than_its_own_header_is_not_yielded() {
    let good = RecordBuilder::new(1024, 0x38)
        .push_nonresident(0x80, 4096, &[0x21, 0x01, 0x00])
        .finish();
    let at = iter_attributes(&good)
        .into_iter()
        .next()
        .expect("one attribute")
        .attr_offset;

    let mut changed = good.clone();
    changed[at + attr_off::LENGTH..at + attr_off::LENGTH + 4]
        .copy_from_slice(&8u32.to_le_bytes());
    assert_eq!(iter_attributes(&changed).len(), 0);

    // A resident header is 0x18, so 0x10 is short for one too.
    let mut changed = good.clone();
    changed[at + attr_off::NON_RESIDENT] = 0;
    changed[at + attr_off::LENGTH..at + attr_off::LENGTH + 4]
        .copy_from_slice(&16u32.to_le_bytes());
    assert_eq!(iter_attributes(&changed).len(), 0);
}

#[test]
fn iter_empty_record_yields_no_attributes() {
    let rec = RecordBuilder::new(1024, 0x38).finish();
    let attrs: Vec<_> = iter_attributes(&rec);
    assert!(attrs.is_empty());
}

#[test]
fn iter_record_with_one_resident_attribute() {
    let rec = RecordBuilder::new(1024, 0x38)
        .push_resident(AttrType::StandardInformation.to_u32(), 0, b"hello", &[])
        .finish();
    let attrs: Vec<_> = iter_attributes(&rec);
    assert_eq!(attrs.len(), 1);
    assert_eq!(attrs[0].type_code, 0x10);
    assert!(attrs[0].is_resident);
    assert_eq!(attrs[0].resident_value_length, Some(5));
    let val_start = attrs[0].attr_offset + attrs[0].resident_value_offset.unwrap() as usize;
    assert_eq!(&rec[val_start..val_start + 5], b"hello");
}

#[test]
fn iter_record_with_multiple_attributes() {
    let rec = RecordBuilder::new(1024, 0x38)
        .push_resident(AttrType::StandardInformation.to_u32(), 0, &[0; 48], &[])
        .push_resident(AttrType::FileName.to_u32(), 1, &[0; 16], &[])
        .push_resident(AttrType::Data.to_u32(), 2, b"\x01\x02\x03", &[])
        .finish();
    let attrs: Vec<_> = iter_attributes(&rec);
    assert_eq!(attrs.len(), 3);
    let codes: Vec<u32> = attrs.iter().map(|a| a.type_code).collect();
    assert_eq!(codes, vec![0x10, 0x30, 0x80]);
}

#[test]
fn iter_stops_at_end_marker() {
    // After a manual 0xFFFFFFFF, no further iteration even if more
    // bytes follow.
    let rec = RecordBuilder::new(1024, 0x38)
        .push_resident(AttrType::StandardInformation.to_u32(), 0, b"x", &[])
        .finish();
    // Mess up bytes past the end marker — iter_attributes must not
    // touch them.
    let mut rec = rec;
    let bu = u32::from_le_bytes([
        rec[REC_OFF_BYTES_USED],
        rec[REC_OFF_BYTES_USED + 1],
        rec[REC_OFF_BYTES_USED + 2],
        rec[REC_OFF_BYTES_USED + 3],
    ]) as usize;
    rec[bu..bu + 4].copy_from_slice(&[0xDE, 0xAD, 0xBE, 0xEF]);
    let attrs: Vec<_> = iter_attributes(&rec);
    assert_eq!(attrs.len(), 1);
}

#[test]
fn iter_rejects_attr_length_not_multiple_of_8() {
    // Build a record then corrupt one attribute's length to 5.
    let mut rec = RecordBuilder::new(1024, 0x38)
        .push_resident(AttrType::StandardInformation.to_u32(), 0, b"x", &[])
        .finish();
    let start = 0x38;
    rec[start + attr_off::LENGTH..start + attr_off::LENGTH + 4]
        .copy_from_slice(&5u32.to_le_bytes());
    let attrs: Vec<_> = iter_attributes(&rec);
    assert_eq!(attrs.len(), 0, "iterator must stop on malformed length");
}

// --- find_attribute ----------------------------------------------------

#[test]
fn find_attribute_by_type_returns_first_match() {
    let rec = RecordBuilder::new(1024, 0x38)
        .push_resident(AttrType::StandardInformation.to_u32(), 0, &[0; 48], &[])
        .push_resident(AttrType::FileName.to_u32(), 1, &[0; 16], &[])
        .finish();
    let si = find_attribute(&rec, AttrType::StandardInformation, None).unwrap();
    assert_eq!(si.type_code, 0x10);
    let fname = find_attribute(&rec, AttrType::FileName, None).unwrap();
    assert_eq!(fname.type_code, 0x30);
}

#[test]
fn find_attribute_returns_none_when_absent() {
    let rec = RecordBuilder::new(1024, 0x38)
        .push_resident(AttrType::StandardInformation.to_u32(), 0, b"x", &[])
        .finish();
    assert!(find_attribute(&rec, AttrType::Data, None).is_none());
}

#[test]
fn find_attribute_by_name_matches_utf16_name() {
    // Build an attribute with name "$I30" (4 UTF-16 code units).
    let name = [0x0024, 0x0049, 0x0033, 0x0030u16]; // "$I30"
    let rec = RecordBuilder::new(1024, 0x38)
        .push_resident(AttrType::IndexRoot.to_u32(), 0, b"data", &name)
        .finish();
    let found = find_attribute(&rec, AttrType::IndexRoot, Some("$I30")).unwrap();
    assert_eq!(found.name_length, 4);
    assert!(find_attribute(&rec, AttrType::IndexRoot, Some("$WRONG")).is_none());
}

// --- non-resident iteration -------------------------------------------

#[test]
fn iter_returns_nonresident_data_length_and_mapping_pairs_offset() {
    // mapping pairs: one run of length=2, lcn=5.
    let mp = [0x11, 0x02, 0x05, 0x00];
    let rec = RecordBuilder::new(1024, 0x38)
        .push_nonresident(AttrType::Data.to_u32(), 8192, &mp)
        .finish();
    let attrs: Vec<_> = iter_attributes(&rec);
    assert_eq!(attrs.len(), 1);
    assert!(!attrs[0].is_resident);
    assert_eq!(attrs[0].non_resident_value_length, Some(8192));
    assert_eq!(attrs[0].non_resident_mapping_pairs_offset, Some(64));
}

// --- attr_name_equals --------------------------------------------------

#[test]
fn attr_name_equals_empty_name_only_matches_empty_string() {
    let rec = RecordBuilder::new(1024, 0x38)
        .push_resident(AttrType::Data.to_u32(), 0, b"x", &[])
        .finish();
    let loc = iter_attributes(&rec).into_iter().next().unwrap();
    assert!(attr_name_equals(&rec, &loc, ""));
    assert!(!attr_name_equals(&rec, &loc, "anything"));
}

#[test]
fn attr_name_equals_named_attribute() {
    let name_utf16: Vec<u16> = "$I30".encode_utf16().collect();
    let rec = RecordBuilder::new(1024, 0x38)
        .push_resident(AttrType::IndexRoot.to_u32(), 0, b"data", &name_utf16)
        .finish();
    let loc = iter_attributes(&rec).into_iter().next().unwrap();
    assert!(attr_name_equals(&rec, &loc, "$I30"));
    assert!(!attr_name_equals(&rec, &loc, ""));
    assert!(!attr_name_equals(&rec, &loc, "$I31"));
}

// --- read_u16/32/64_le -------------------------------------------------

#[test]
fn read_u16_le_basic() {
    let buf = [0x34u8, 0x12, 0x00];
    assert_eq!(read_u16_le(&buf, 0), Some(0x1234));
    assert_eq!(read_u16_le(&buf, 1), Some(0x0012)); // bytes [0x12, 0x00] → 0x0012
    assert_eq!(read_u16_le(&buf, 2), None); // only 1 byte left
}

#[test]
fn read_u16_le_bounds() {
    let buf = [0xABu8, 0xCD];
    assert_eq!(read_u16_le(&buf, 0), Some(0xCDAB));
    assert_eq!(read_u16_le(&buf, 1), None); // only 1 byte left
    assert_eq!(read_u16_le(&buf, 2), None);
}

#[test]
fn read_u32_le_basic() {
    let buf = [0x78u8, 0x56, 0x34, 0x12];
    assert_eq!(read_u32_le(&buf, 0), Some(0x1234_5678));
}

#[test]
fn read_u32_le_bounds() {
    let buf = [0u8; 3];
    assert_eq!(read_u32_le(&buf, 0), None);
    let buf4 = [1u8, 0, 0, 0];
    assert_eq!(read_u32_le(&buf4, 0), Some(1));
    assert_eq!(read_u32_le(&buf4, 1), None);
}

#[test]
fn read_u64_le_basic() {
    let buf: [u8; 8] = [0x08, 0x07, 0x06, 0x05, 0x04, 0x03, 0x02, 0x01];
    assert_eq!(read_u64_le(&buf, 0), Some(0x0102_0304_0506_0708));
}

#[test]
fn read_u64_le_bounds() {
    let buf = [0u8; 7];
    assert_eq!(read_u64_le(&buf, 0), None);
    let buf8 = [0xFFu8; 8];
    assert_eq!(read_u64_le(&buf8, 0), Some(u64::MAX));
    assert_eq!(read_u64_le(&buf8, 1), None);
}

// --- decode_attr_name ---------------------------------------------------

#[test]
fn decode_attr_name_unnamed_returns_empty() {
    let rec = RecordBuilder::new(1024, 0x38)
        .push_resident(AttrType::Data.to_u32(), 0, b"x", &[])
        .finish();
    let loc = iter_attributes(&rec).into_iter().next().unwrap();
    assert_eq!(decode_attr_name(&rec, &loc), "");
}

#[test]
fn decode_attr_name_named_attribute() {
    let name_utf16: Vec<u16> = "Zone.Identifier".encode_utf16().collect();
    let rec = RecordBuilder::new(1024, 0x38)
        .push_resident(AttrType::Data.to_u32(), 0, b"x", &name_utf16)
        .finish();
    let loc = iter_attributes(&rec).into_iter().next().unwrap();
    assert_eq!(decode_attr_name(&rec, &loc), "Zone.Identifier");
}

// --- describe_attributes ------------------------------------------------

#[test]
fn describe_attributes_returns_one_per_attr() {
    let rec = RecordBuilder::new(1024, 0x38)
        .push_resident(AttrType::StandardInformation.to_u32(), 0, &[0u8; 48], &[])
        .push_resident(AttrType::FileName.to_u32(), 1, &[0u8; 32], &[])
        .finish();
    let descs = describe_attributes(&rec);
    assert_eq!(descs.len(), 2);
    assert_eq!(descs[0].type_code, 0x10);
    assert_eq!(descs[0].type_label, "$STANDARD_INFORMATION");
    assert_eq!(descs[1].type_code, 0x30);
    assert_eq!(descs[1].type_label, "$FILE_NAME");
}

#[test]
fn describe_attributes_empty_record_returns_empty() {
    let rec = RecordBuilder::new(1024, 0x38).finish();
    assert!(describe_attributes(&rec).is_empty());
}

#[test]
fn describe_attributes_resident_value_length() {
    let rec = RecordBuilder::new(1024, 0x38)
        .push_resident(AttrType::Data.to_u32(), 0, b"hello", &[])
        .finish();
    let descs = describe_attributes(&rec);
    assert_eq!(descs[0].value_length, 5);
    assert!(descs[0].is_resident);
}

#[test]
fn describe_attributes_nonresident_value_length() {
    let mp = [0x11u8, 0x04, 0x05, 0x00]; // one run, 4 clusters from lcn 5
    let rec = RecordBuilder::new(1024, 0x38)
        .push_nonresident(AttrType::Data.to_u32(), 16384, &mp)
        .finish();
    let descs = describe_attributes(&rec);
    assert_eq!(descs[0].value_length, 16384);
    assert!(!descs[0].is_resident);
}
