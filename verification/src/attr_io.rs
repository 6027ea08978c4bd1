//! Attributes within a clean (post-fixup) file record.
//!
//! A record names the offset of its first attribute and the number of its
//! bytes in use. Attributes follow one another from there until the end
//! marker, the end of the bytes in use, or the first header that does not
//! describe something inside itself.

use vstd::prelude::*;

pub use crate::attr_off;
use crate::bytes;
use crate::bytes::{get_u16, get_u32, get_u64};
use crate::text::{decimal, hexadecimal};
use crate::text;
use crate::utf16;
use crate::utf16::{from_utf16, from_utf16_lossy};

verus! {

/// The attribute types that have a name here.
#[derive(Debug, Clone, Copy, PartialEq, Eq, Structural)]
pub enum AttrType {
    StandardInformation,
    AttributeList,
    FileName,
    ObjectId,
    SecurityDescriptor,
    VolumeName,
    VolumeInformation,
    Data,
    IndexRoot,
    IndexAllocation,
    Bitmap,
    ReparsePoint,
    ExtendedAttributeInformation,
    ExtendedAttribute,
}

impl AttrType {
    /// The code that stands for this type on disk.
    pub open spec fn code(self) -> u32 {
        match self {
            AttrType::StandardInformation => 0x10,
            AttrType::AttributeList => 0x20,
            AttrType::FileName => 0x30,
            AttrType::ObjectId => 0x40,
            AttrType::SecurityDescriptor => 0x50,
            AttrType::VolumeName => 0x60,
            AttrType::VolumeInformation => 0x70,
            AttrType::Data => 0x80,
            AttrType::IndexRoot => 0x90,
            AttrType::IndexAllocation => 0xA0,
            AttrType::Bitmap => 0xB0,
            AttrType::ReparsePoint => 0xC0,
            AttrType::ExtendedAttributeInformation => 0xD0,
            AttrType::ExtendedAttribute => 0xE0,
        }
    }

    /// The type whose code is `v`, where there is one.
    pub open spec fn of_code(v: u32) -> Option<Self> {
        match v {
            0x10 => Some(AttrType::StandardInformation),
            0x20 => Some(AttrType::AttributeList),
            0x30 => Some(AttrType::FileName),
            0x40 => Some(AttrType::ObjectId),
            0x50 => Some(AttrType::SecurityDescriptor),
            0x60 => Some(AttrType::VolumeName),
            0x70 => Some(AttrType::VolumeInformation),
            0x80 => Some(AttrType::Data),
            0x90 => Some(AttrType::IndexRoot),
            0xA0 => Some(AttrType::IndexAllocation),
            0xB0 => Some(AttrType::Bitmap),
            0xC0 => Some(AttrType::ReparsePoint),
            0xD0 => Some(AttrType::ExtendedAttributeInformation),
            0xE0 => Some(AttrType::ExtendedAttribute),
            _ => None,
        }
    }

    /// The code that stands for this type on disk.
    pub fn to_u32(self) -> (v: u32)
        ensures
            v == self.code(),
    {
        match self {
            AttrType::StandardInformation => 0x10,
            AttrType::AttributeList => 0x20,
            AttrType::FileName => 0x30,
            AttrType::ObjectId => 0x40,
            AttrType::SecurityDescriptor => 0x50,
            AttrType::VolumeName => 0x60,
            AttrType::VolumeInformation => 0x70,
            AttrType::Data => 0x80,
            AttrType::IndexRoot => 0x90,
            AttrType::IndexAllocation => 0xA0,
            AttrType::Bitmap => 0xB0,
            AttrType::ReparsePoint => 0xC0,
            AttrType::ExtendedAttributeInformation => 0xD0,
            AttrType::ExtendedAttribute => 0xE0,
        }
    }

    /// The type whose code is `v`, where there is one.
    pub fn from_u32(v: u32) -> (t: Option<Self>)
        ensures
            t == Self::of_code(v),
    {
        match v {
            0x10 => Some(AttrType::StandardInformation),
            0x20 => Some(AttrType::AttributeList),
            0x30 => Some(AttrType::FileName),
            0x40 => Some(AttrType::ObjectId),
            0x50 => Some(AttrType::SecurityDescriptor),
            0x60 => Some(AttrType::VolumeName),
            0x70 => Some(AttrType::VolumeInformation),
            0x80 => Some(AttrType::Data),
            0x90 => Some(AttrType::IndexRoot),
            0xA0 => Some(AttrType::IndexAllocation),
            0xB0 => Some(AttrType::Bitmap),
            0xC0 => Some(AttrType::ReparsePoint),
            0xD0 => Some(AttrType::ExtendedAttributeInformation),
            0xE0 => Some(AttrType::ExtendedAttribute),
            _ => None,
        }
    }
}

/// No two types share a code, so a code read back names the type it was
/// written for, and a code that names none is none's.
pub proof fn lemma_type_codes_are_distinct(a: AttrType, b: AttrType, v: u32)
    ensures
        a.code() == b.code() <==> a == b,
        AttrType::of_code(v) == Some(a) <==> a.code() == v,
{
}

/// Where an attribute lives within a file record. Offsets are relative to the
/// start of the record.
#[derive(Debug, Clone, Copy)]
pub struct AttrLocation {
    pub type_code: u32,
    pub attr_offset: usize,
    pub attr_length: usize,
    pub is_resident: bool,
    pub name_length: u8,
    pub name_offset: u16,
    pub attribute_id: u16,
    /// Resident attributes: offset of the value from the attribute's start.
    pub resident_value_offset: Option<u16>,
    pub resident_value_length: Option<u32>,
    /// Non-resident attributes: size of the attribute's logical data.
    pub non_resident_value_length: Option<u64>,
    /// Non-resident attributes: offset of the run list from the attribute's
    /// start.
    pub non_resident_mapping_pairs_offset: Option<u16>,
}

/// End-of-attributes sentinel.
pub const END_MARKER: u32 = 0xFFFF_FFFF;

pub const REC_OFF_ATTRS_OFFSET: usize = 0x14;

pub const REC_OFF_BYTES_USED: usize = 0x18;

/// Where the record's first attribute starts.
pub open spec fn attrs_start(record: Seq<u8>) -> int {
    if REC_OFF_ATTRS_OFFSET + 2 <= record.len() {
        bytes::le16(record, REC_OFF_ATTRS_OFFSET as int)
    } else {
        0
    }
}

/// The bytes of the record that are in use, no more than it has.
pub open spec fn bytes_in_use(record: Seq<u8>) -> int {
    if REC_OFF_BYTES_USED + 4 <= record.len() {
        if bytes::le32(record, REC_OFF_BYTES_USED as int) <= record.len() {
            bytes::le32(record, REC_OFF_BYTES_USED as int)
        } else {
            record.len() as int
        }
    } else {
        0
    }
}

/// Whether the attribute header at `at` is of the non-resident form.
pub open spec fn non_resident_at(record: Seq<u8>, at: int) -> bool {
    record[at + attr_off::NON_RESIDENT] != 0
}

/// The size of a header of either form.
pub open spec fn header_size(non_resident: bool) -> int {
    if non_resident {
        0x40
    } else {
        0x18
    }
}

/// The name, where there is one, is inside the attribute.
pub open spec fn name_inside(record: Seq<u8>, at: int, length: int) -> bool {
    record[at + attr_off::NAME_LENGTH] != 0 ==> bytes::le16(record, at + attr_off::NAME_OFFSET)
        + record[at + attr_off::NAME_LENGTH] * 2 <= length
}

/// The value of a resident attribute, or the run list of a non-resident one,
/// is inside the attribute and behind its header.
pub open spec fn value_inside(record: Seq<u8>, at: int, length: int) -> bool {
    if non_resident_at(record, at) {
        0x40 <= bytes::le16(record, at + attr_off::NONRES_MAPPING_PAIRS_OFFSET) <= length
    } else {
        &&& 0x18 <= bytes::le16(record, at + attr_off::RESIDENT_VALUE_OFFSET)
        &&& bytes::le16(record, at + attr_off::RESIDENT_VALUE_OFFSET) + bytes::le32(
            record,
            at + attr_off::RESIDENT_VALUE_LENGTH,
        ) <= length
    }
}

/// An attribute stands at `at`: its header, its name and its value lie inside
/// its own length, and that length inside the first `used` bytes.
pub open spec fn attribute_at(record: Seq<u8>, used: int, at: int) -> bool {
    let length = bytes::le32(record, at + attr_off::LENGTH);
    &&& 0 <= at
    &&& at + 16 <= used <= record.len()
    &&& bytes::le32(record, at + attr_off::TYPE) != END_MARKER
    &&& length % 8 == 0
    &&& at + length <= used
    &&& header_size(non_resident_at(record, at)) <= length
    &&& name_inside(record, at, length)
    &&& value_inside(record, at, length)
}

/// What the header at `at` says.
pub open spec fn location_at(record: Seq<u8>, at: int) -> AttrLocation {
    let non_resident = non_resident_at(record, at);
    AttrLocation {
        type_code: bytes::le32(record, at + attr_off::TYPE) as u32,
        attr_offset: at as usize,
        attr_length: bytes::le32(record, at + attr_off::LENGTH) as usize,
        is_resident: !non_resident,
        name_length: record[at + attr_off::NAME_LENGTH],
        name_offset: bytes::le16(record, at + attr_off::NAME_OFFSET) as u16,
        attribute_id: bytes::le16(record, at + attr_off::ATTRIBUTE_ID) as u16,
        resident_value_offset: if non_resident {
            None
        } else {
            Some(bytes::le16(record, at + attr_off::RESIDENT_VALUE_OFFSET) as u16)
        },
        resident_value_length: if non_resident {
            None
        } else {
            Some(bytes::le32(record, at + attr_off::RESIDENT_VALUE_LENGTH) as u32)
        },
        non_resident_value_length: if non_resident {
            Some(bytes::le64(record, at + attr_off::NONRES_DATA_LENGTH) as u64)
        } else {
            None
        },
        non_resident_mapping_pairs_offset: if non_resident {
            Some(bytes::le16(record, at + attr_off::NONRES_MAPPING_PAIRS_OFFSET) as u16)
        } else {
            None
        },
    }
}

/// The attributes that follow one another from `at` on.
pub open spec fn attributes_from(record: Seq<u8>, used: int, at: int) -> Seq<AttrLocation>
    decreases used - at,
{
    if attribute_at(record, used, at) {
        seq![location_at(record, at)] + attributes_from(
            record,
            used,
            at + bytes::le32(record, at + attr_off::LENGTH),
        )
    } else {
        Seq::empty()
    }
}

/// The attributes of a record, in the order in which they stand.
pub open spec fn attributes(record: Seq<u8>) -> Seq<AttrLocation> {
    attributes_from(record, bytes_in_use(record), attrs_start(record))
}

/// Everything that an attribute of a record names lies inside the attribute,
/// and the attribute inside the record.
pub open spec fn within_record(loc: AttrLocation, record: Seq<u8>) -> bool {
    &&& loc.attr_offset + loc.attr_length <= record.len()
    &&& loc.attr_length >= 0x18
    &&& loc.attr_length % 8 == 0
    &&& loc.name_length != 0 ==> loc.name_offset + 2 * loc.name_length <= loc.attr_length
    &&& if loc.is_resident {
        &&& loc.resident_value_offset is Some
        &&& loc.resident_value_length is Some
        &&& loc.non_resident_value_length is None
        &&& loc.non_resident_mapping_pairs_offset is None
        &&& 0x18 <= loc.resident_value_offset->Some_0
        &&& loc.resident_value_offset->Some_0 + loc.resident_value_length->Some_0
            <= loc.attr_length
    } else {
        &&& loc.resident_value_offset is None
        &&& loc.resident_value_length is None
        &&& loc.non_resident_value_length is Some
        &&& loc.non_resident_mapping_pairs_offset is Some
        &&& 0x40 <= loc.non_resident_mapping_pairs_offset->Some_0 <= loc.attr_length
    }
}

proof fn lemma_location_is_within(record: Seq<u8>, used: int, at: int)
    requires
        attribute_at(record, used, at),
        record.len() <= usize::MAX,
    ensures
        within_record(location_at(record, at), record),
        location_at(record, at).attr_offset == at,
        location_at(record, at).attr_length == bytes::le32(record, at + attr_off::LENGTH),
{
}

proof fn lemma_all_within(record: Seq<u8>, used: int, at: int)
    requires
        record.len() <= usize::MAX,
    ensures
        forall|i: int|
            0 <= i < attributes_from(record, used, at).len() ==> within_record(
                #[trigger] attributes_from(record, used, at)[i],
                record,
            ),
    decreases used - at,
{
    if attribute_at(record, used, at) {
        let next = at + bytes::le32(record, at + attr_off::LENGTH);
        lemma_location_is_within(record, used, at);
        lemma_all_within(record, used, next);
        let rest = attributes_from(record, used, next);
        assert forall|i: int| 0 <= i < attributes_from(record, used, at).len() implies within_record(
            #[trigger] attributes_from(record, used, at)[i],
            record,
        ) by {
            if i > 0 {
                assert(attributes_from(record, used, at)[i] == rest[i - 1]);
            }
        }
    }
}

/// Nothing that a record's attributes say reaches outside the record: a value,
/// a name and a run list are each inside their own attribute, and the
/// attribute is inside the record.
pub proof fn lemma_attributes_are_within(record: Seq<u8>)
    requires
        record.len() <= usize::MAX,
    ensures
        forall|i: int|
            0 <= i < attributes(record).len() ==> within_record(
                #[trigger] attributes(record)[i],
                record,
            ),
{
    lemma_all_within(record, bytes_in_use(record), attrs_start(record));
}

/// `loc`, standing `d` bytes further on.
pub open spec fn moved(loc: AttrLocation, d: int) -> AttrLocation {
    AttrLocation { attr_offset: (loc.attr_offset + d) as usize, ..loc }
}

/// All of `locs`, standing `d` bytes further on.
pub open spec fn all_moved(locs: Seq<AttrLocation>, d: int) -> Seq<AttrLocation> {
    Seq::new(locs.len(), |i: int| moved(locs[i], d))
}

/// The walk from `at` comes to `stop`.
pub open spec fn reaches(record: Seq<u8>, used: int, at: int, stop: int) -> bool
    decreases used - at,
{
    at == stop || (attribute_at(record, used, at) && reaches(
        record,
        used,
        at + bytes::le32(record, at + attr_off::LENGTH),
        stop,
    ))
}

/// The attributes that the walk from `at` passes before it comes to `stop`.
pub open spec fn attributes_between(record: Seq<u8>, used: int, at: int, stop: int) -> Seq<
    AttrLocation,
>
    decreases used - at,
{
    if at == stop || !attribute_at(record, used, at) {
        Seq::empty()
    } else {
        seq![location_at(record, at)] + attributes_between(
            record,
            used,
            at + bytes::le32(record, at + attr_off::LENGTH),
            stop,
        )
    }
}

pub(crate) proof fn lemma_reaches_forward(record: Seq<u8>, used: int, at: int, stop: int)
    requires
        reaches(record, used, at, stop),
    ensures
        at <= stop,
        at < stop ==> stop <= used,
    decreases used - at,
{
    if at != stop {
        let next = at + bytes::le32(record, at + attr_off::LENGTH);
        lemma_reaches_forward(record, used, next, stop);
    }
}

/// Attributes that begin and end before `stop` are read from the bytes before
/// `stop` alone.
pub(crate) proof fn lemma_same_before(
    record: Seq<u8>,
    used: int,
    other: Seq<u8>,
    other_used: int,
    at: int,
    stop: int,
)
    requires
        0 <= at,
        reaches(record, used, at, stop),
        stop <= other_used <= other.len(),
        forall|i: int| at <= i < stop ==> other[i] == record[i],
    ensures
        reaches(other, other_used, at, stop),
        attributes_from(other, other_used, at) == attributes_between(record, used, at, stop)
            + attributes_from(other, other_used, stop),
    decreases used - at,
{
    if at == stop {
        assert(attributes_between(record, used, at, stop) =~= Seq::<AttrLocation>::empty());
        assert(Seq::<AttrLocation>::empty() + attributes_from(other, other_used, stop)
            =~= attributes_from(other, other_used, stop));
    } else {
        let next = at + bytes::le32(record, at + attr_off::LENGTH);
        lemma_reaches_forward(record, used, next, stop);
        lemma_same_header(record, used, other, other_used, at, at);
        lemma_same_before(record, used, other, other_used, next, stop);
        assert(moved(location_at(record, at), 0) == location_at(record, at));
        let tail = attributes_from(other, other_used, stop);
        let mid = attributes_between(record, used, next, stop);
        assert(seq![location_at(record, at)] + (mid + tail) =~= (seq![location_at(record, at)] + mid)
            + tail);
    }
}

/// An attribute whose bytes stand elsewhere says the same of itself there.
pub(crate) proof fn lemma_same_header(
    record: Seq<u8>,
    used: int,
    other: Seq<u8>,
    other_used: int,
    at: int,
    to: int,
)
    requires
        attribute_at(record, used, at),
        0 <= to,
        to + bytes::le32(record, at + attr_off::LENGTH) <= other_used <= other.len(),
        forall|i: int|
            to <= i < to + bytes::le32(record, at + attr_off::LENGTH) ==> #[trigger] other[i]
                == record[i - to + at],
    ensures
        attribute_at(other, other_used, to),
        bytes::le32(other, to + attr_off::LENGTH) == bytes::le32(record, at + attr_off::LENGTH),
        location_at(other, to) == (AttrLocation {
            attr_offset: to as usize,
            ..location_at(record, at)
        }),
{
    assert(forall|k: int|
        0 <= k < bytes::le32(record, at + attr_off::LENGTH) ==> #[trigger] other[to + k]
            == record[at + k]);
    assert(bytes::le32(other, to + attr_off::TYPE) == bytes::le32(record, at + attr_off::TYPE));
    assert(bytes::le32(other, to + attr_off::LENGTH) == bytes::le32(record, at + attr_off::LENGTH));
    assert(non_resident_at(other, to) == non_resident_at(record, at));
    assert(bytes::le16(other, to + attr_off::NAME_OFFSET) == bytes::le16(
        record,
        at + attr_off::NAME_OFFSET,
    ));
    assert(bytes::le16(other, to + attr_off::ATTRIBUTE_ID) == bytes::le16(
        record,
        at + attr_off::ATTRIBUTE_ID,
    ));
    if non_resident_at(record, at) {
        assert(bytes::le16(other, to + attr_off::NONRES_MAPPING_PAIRS_OFFSET) == bytes::le16(
            record,
            at + attr_off::NONRES_MAPPING_PAIRS_OFFSET,
        ));
        assert(bytes::le64(other, to + attr_off::NONRES_DATA_LENGTH) == bytes::le64(
            record,
            at + attr_off::NONRES_DATA_LENGTH,
        ));
    } else {
        assert(bytes::le16(other, to + attr_off::RESIDENT_VALUE_OFFSET) == bytes::le16(
            record,
            at + attr_off::RESIDENT_VALUE_OFFSET,
        ));
        assert(bytes::le32(other, to + attr_off::RESIDENT_VALUE_LENGTH) == bytes::le32(
            record,
            at + attr_off::RESIDENT_VALUE_LENGTH,
        ));
    }
}

/// Attributes that move together with everything in use behind them stay the
/// same attributes.
pub(crate) proof fn lemma_walk_moved(
    record: Seq<u8>,
    used: int,
    other: Seq<u8>,
    other_used: int,
    at: int,
    to: int,
)
    requires
        0 <= at,
        0 <= to,
        used - at == other_used - to,
        used <= record.len() <= usize::MAX,
        other_used <= other.len() <= usize::MAX,
        forall|i: int| to <= i < other_used ==> #[trigger] other[i] == record[i - to + at],
    ensures
        attributes_from(other, other_used, to) == all_moved(
            attributes_from(record, used, at),
            to - at,
        ),
    decreases used - at,
{
    if attribute_at(record, used, at) {
        let length = bytes::le32(record, at + attr_off::LENGTH);
        lemma_same_header(record, used, other, other_used, at, to);
        lemma_walk_moved(record, used, other, other_used, at + length, to + length);
        lemma_location_is_within(record, used, at);
        let rest = attributes_from(record, used, at + length);
        assert(all_moved(seq![location_at(record, at)] + rest, to - at) =~= seq![
            location_at(other, to),
        ] + all_moved(rest, to - at));
    } else {
        if attribute_at(other, other_used, to) {
            assert forall|i: int|
                at <= i < at + bytes::le32(other, to + attr_off::LENGTH) implies #[trigger] record[i]
                == other[i - at + to] by {
                assert(other[i - at + to] == record[i]);
            }
            lemma_same_header(other, other_used, record, used, to, at);
        }
        assert(attributes_from(other, other_used, to) =~= Seq::<AttrLocation>::empty());
        assert(all_moved(Seq::<AttrLocation>::empty(), to - at) =~= Seq::<AttrLocation>::empty());
    }
}

/// The walk comes to each attribute that it yields.
pub(crate) proof fn lemma_walk_comes_to(record: Seq<u8>, used: int, at: int, i: int)
    requires
        0 <= i < attributes_from(record, used, at).len(),
        record.len() <= usize::MAX,
    ensures
        ({
            let all = attributes_from(record, used, at);
            let p = all[i].attr_offset as int;
            &&& reaches(record, used, at, p)
            &&& attribute_at(record, used, p)
            &&& all[i] == location_at(record, p)
            &&& attributes_between(record, used, at, p) == all.take(i)
            &&& attributes_from(record, used, p) == all.skip(i)
        }),
    decreases used - at,
{
    let all = attributes_from(record, used, at);
    let length = bytes::le32(record, at + attr_off::LENGTH);
    let rest = attributes_from(record, used, at + length);
    lemma_location_is_within(record, used, at);
    if i == 0 {
        assert(all.take(0) =~= Seq::<AttrLocation>::empty());
        assert(all.skip(0) =~= all);
    } else {
        assert(all[i] == rest[i - 1]);
        lemma_walk_comes_to(record, used, at + length, i - 1);
        let p = all[i].attr_offset as int;
        lemma_reaches_forward(record, used, at + length, p);
        assert(all.take(i) =~= seq![location_at(record, at)] + rest.take(i - 1));
        assert(all.skip(i) =~= rest.skip(i - 1));
    }
}

/// Reads the little-endian `u16` at `offset`, or `None` where the buffer is
/// too short.
pub fn read_u16_le(buf: &[u8], offset: usize) -> (v: Option<u16>)
    ensures
        v == (if offset + 2 <= buf@.len() {
            Some(bytes::le16(buf@, offset as int) as u16)
        } else {
            None
        }),
{
    if offset <= buf.len() && buf.len() - offset >= 2 {
        Some(get_u16(buf, offset))
    } else {
        None
    }
}

/// Reads the little-endian `u32` at `offset`, or `None` where the buffer is
/// too short.
pub fn read_u32_le(buf: &[u8], offset: usize) -> (v: Option<u32>)
    ensures
        v == (if offset + 4 <= buf@.len() {
            Some(bytes::le32(buf@, offset as int) as u32)
        } else {
            None
        }),
{
    if offset <= buf.len() && buf.len() - offset >= 4 {
        Some(get_u32(buf, offset))
    } else {
        None
    }
}

/// Reads the little-endian `u64` at `offset`, or `None` where the buffer is
/// too short.
pub fn read_u64_le(buf: &[u8], offset: usize) -> (v: Option<u64>)
    ensures
        v == (if offset + 8 <= buf@.len() {
            Some(bytes::le64(buf@, offset as int) as u64)
        } else {
            None
        }),
{
    if offset <= buf.len() && buf.len() - offset >= 8 {
        Some(get_u64(buf, offset))
    } else {
        None
    }
}

/// A walk over the attributes of a record.
pub struct AttrIter<'a> {
    record: &'a [u8],
    cursor: usize,
    bytes_used: usize,
}

impl<'a> AttrIter<'a> {
    pub closed spec fn record(&self) -> Seq<u8> {
        self.record@
    }

    pub closed spec fn used(&self) -> int {
        self.bytes_used as int
    }

    pub closed spec fn at(&self) -> int {
        self.cursor as int
    }

    /// A walk from the record's first attribute.
    pub fn new(record: &'a [u8]) -> (it: Self)
        ensures
            it.record() == record@,
            it.used() == bytes_in_use(record@),
            it.at() == attrs_start(record@),
    {
        let cursor: usize = match read_u16_le(record, REC_OFF_ATTRS_OFFSET) {
            Some(v) => v as usize,
            None => 0,
        };
        let declared: usize = match read_u32_le(record, REC_OFF_BYTES_USED) {
            Some(v) => v as usize,
            None => 0,
        };
        let bytes_used: usize = if declared <= record.len() {
            declared
        } else {
            record.len()
        };
        AttrIter { record, cursor, bytes_used }
    }

    /// The attribute that the walk has come to, if one stands there, and the
    /// step past it.
    pub fn next(&mut self) -> (r: Option<AttrLocation>)
        requires
            old(self).used() <= old(self).record().len(),
        ensures
            final(self).record() == old(self).record(),
            final(self).used() == old(self).used(),
            match r {
                Some(loc) => {
                    &&& attribute_at(old(self).record(), old(self).used(), old(self).at())
                    &&& loc == location_at(old(self).record(), old(self).at())
                    &&& final(self).at() == old(self).at() + loc.attr_length
                },
                None => {
                    &&& !attribute_at(old(self).record(), old(self).used(), old(self).at())
                    &&& final(self).at() == old(self).at()
                },
            },
    {
        let record = self.record;
        let cursor: usize = self.cursor;
        let used: usize = self.bytes_used;
        let size: usize = record.len();
        if cursor > used || used - cursor < 4 {
            return None;
        }
        let type_code: u32 = get_u32(record, cursor + attr_off::TYPE);
        if type_code == END_MARKER {
            return None;
        }
        if used - cursor < 16 {
            return None;
        }
        let length: usize = get_u32(record, cursor + attr_off::LENGTH) as usize;
        if length == 0 || length % 8 != 0 || length > used - cursor {
            return None;
        }
        let non_resident: bool = record[cursor + attr_off::NON_RESIDENT] != 0;
        let header: usize = if non_resident {
            0x40
        } else {
            0x18
        };
        if length < header {
            return None;
        }
        let name_length: u8 = record[cursor + attr_off::NAME_LENGTH];
        let name_offset: u16 = get_u16(record, cursor + attr_off::NAME_OFFSET);
        let attribute_id: u16 = get_u16(record, cursor + attr_off::ATTRIBUTE_ID);
        if name_length != 0 && name_offset as usize + name_length as usize * 2 > length {
            return None;
        }
        let mut loc = AttrLocation {
            type_code,
            attr_offset: cursor,
            attr_length: length,
            is_resident: !non_resident,
            name_length,
            name_offset,
            attribute_id,
            resident_value_offset: None,
            resident_value_length: None,
            non_resident_value_length: None,
            non_resident_mapping_pairs_offset: None,
        };
        if !non_resident {
            let value_length: u32 = get_u32(record, cursor + attr_off::RESIDENT_VALUE_LENGTH);
            let value_offset: u16 = get_u16(record, cursor + attr_off::RESIDENT_VALUE_OFFSET);
            if (value_offset as usize) < header || value_offset as u64 + value_length as u64
                > length as u64 {
                return None;
            }
            loc.resident_value_length = Some(value_length);
            loc.resident_value_offset = Some(value_offset);
        } else {
            let mapping_pairs_offset: u16 = get_u16(
                record,
                cursor + attr_off::NONRES_MAPPING_PAIRS_OFFSET,
            );
            if (mapping_pairs_offset as usize) < header || mapping_pairs_offset as usize > length {
                return None;
            }
            loc.non_resident_value_length = Some(
                get_u64(record, cursor + attr_off::NONRES_DATA_LENGTH),
            );
            loc.non_resident_mapping_pairs_offset = Some(mapping_pairs_offset);
        }
        self.cursor = cursor + length;
        Some(loc)
    }
}

/// The attributes of `record` (post-fixup), in order.
pub fn iter_attributes(record: &[u8]) -> (locs: Vec<AttrLocation>)
    ensures
        locs@ == attributes(record@),
{
    let mut it = AttrIter::new(record);
    let mut locs: Vec<AttrLocation> = Vec::new();
    let ghost used = it.used();
    let size: usize = record.len();
    proof {
        assert(locs@ + attributes_from(record@, used, it.at()) =~= attributes(record@));
    }
    loop
        invariant
            it.record() == record@,
            it.used() == used,
            size == record.len(),
            used == bytes_in_use(record@),
            used <= record@.len(),
            locs@ + attributes_from(record@, used, it.at()) == attributes(record@),
        decreases used - it.at(),
    {
        let ghost before = it.at();
        let ghost had = locs@;
        match it.next() {
            Some(loc) => {
                proof {
                    lemma_location_is_within(record@, used, before);
                    let rest = attributes_from(record@, used, before + loc.attr_length);
                    assert(attributes_from(record@, used, before) == seq![loc] + rest);
                    assert(had + (seq![loc] + rest) =~= had.push(loc) + rest);
                }
                locs.push(loc);
            },
            None => {
                proof {
                    assert(attributes_from(record@, used, before) =~= Seq::empty());
                    assert(had + Seq::empty() =~= had);
                }
                return locs;
            },
        }
    }
}

/// The code units of the `n`-unit name that starts at `at`.
pub open spec fn units_at(record: Seq<u8>, at: int, n: int) -> Seq<u16> {
    Seq::new(n as nat, |i: int| bytes::le16(record, at + 2 * i) as u16)
}

/// Reads `n` code units from `at` on.
pub(crate) fn read_units(record: &[u8], at: usize, n: usize) -> (u: Vec<u16>)
    requires
        at + 2 * n <= record.len(),
    ensures
        u@ == units_at(record@, at as int, n as int),
{
    let mut u: Vec<u16> = Vec::with_capacity(n);
    let mut i: usize = 0;
    while i < n
        invariant
            at + 2 * n <= record.len(),
            i <= n,
            u@ == units_at(record@, at as int, i as int),
        decreases n - i,
    {
        u.push(get_u16(record, at + 2 * i));
        i = i + 1;
        assert(u@ =~= units_at(record@, at as int, i as int));
    }
    u
}

/// Whether an attribute's name is `want`: an unnamed attribute's is empty, and
/// a name outside the record, or not valid UTF-16, is no string at all.
pub open spec fn name_is(record: Seq<u8>, loc: AttrLocation, want: Seq<char>) -> bool {
    let start = loc.attr_offset + loc.name_offset;
    if loc.name_length == 0 {
        want.len() == 0
    } else {
        &&& start + 2 * loc.name_length <= record.len()
        &&& utf16::decoded(units_at(record, start, loc.name_length as int)) == Some(want)
    }
}

/// Compares an attribute's name (UTF-16, little-endian) with `want`.
pub fn attr_name_equals(record: &[u8], loc: &AttrLocation, want: &str) -> (same: bool)
    requires
        loc.name_length != 0 ==> loc.attr_offset + loc.name_offset + 2 * loc.name_length
            <= usize::MAX,
    ensures
        same == name_is(record@, *loc, want@),
{
    if loc.name_length == 0 {
        return want.is_empty();
    }
    let start: usize = loc.attr_offset + loc.name_offset as usize;
    let n: usize = loc.name_length as usize;
    if start + n * 2 > record.len() {
        return false;
    }
    let units = read_units(record, start, n);
    match from_utf16(units.as_slice()) {
        Some(decoded) => decoded == want.to_owned(),
        None => false,
    }
}

/// An attribute of type `t`, unnamed or with the name asked for.
pub open spec fn is_wanted(
    record: Seq<u8>,
    loc: AttrLocation,
    t: AttrType,
    name: Option<Seq<char>>,
) -> bool {
    &&& loc.type_code == t.code()
    &&& match name {
        None => loc.name_length == 0,
        Some(want) => name_is(record, loc, want),
    }
}

/// The first of `locs` that is wanted.
pub open spec fn first_wanted(
    record: Seq<u8>,
    locs: Seq<AttrLocation>,
    t: AttrType,
    name: Option<Seq<char>>,
) -> Option<AttrLocation>
    decreases locs.len(),
{
    if locs.len() == 0 {
        None
    } else if is_wanted(record, locs[0], t, name) {
        Some(locs[0])
    } else {
        first_wanted(record, locs.skip(1), t, name)
    }
}

/// The view of an optional name.
pub open spec fn name_view(name: Option<&str>) -> Option<Seq<char>> {
    match name {
        Some(s) => Some(s@),
        None => None,
    }
}

/// The attribute that `find_attribute` gives.
pub open spec fn found_attribute(
    record: Seq<u8>,
    t: AttrType,
    name: Option<Seq<char>>,
) -> Option<AttrLocation> {
    first_wanted(record, attributes(record), t, name)
}

/// What is found is an attribute of the record, of the type and name asked
/// for, and none before it is.
pub proof fn lemma_found_is_first(record: Seq<u8>, t: AttrType, name: Option<Seq<char>>)
    ensures
        match found_attribute(record, t, name) {
            Some(loc) => exists|i: int|
                0 <= i < attributes(record).len() && #[trigger] attributes(record)[i] == loc
                    && is_wanted(record, loc, t, name) && forall|j: int|
                    0 <= j < i ==> !is_wanted(record, #[trigger] attributes(record)[j], t, name),
            None => forall|j: int|
                0 <= j < attributes(record).len() ==> !is_wanted(
                    record,
                    #[trigger] attributes(record)[j],
                    t,
                    name,
                ),
        },
{
    lemma_first_wanted(record, attributes(record), t, name);
}

proof fn lemma_first_wanted(
    record: Seq<u8>,
    locs: Seq<AttrLocation>,
    t: AttrType,
    name: Option<Seq<char>>,
)
    ensures
        match first_wanted(record, locs, t, name) {
            Some(loc) => exists|i: int|
                0 <= i < locs.len() && #[trigger] locs[i] == loc && is_wanted(record, loc, t, name)
                    && forall|j: int|
                    0 <= j < i ==> !is_wanted(record, #[trigger] locs[j], t, name),
            None => forall|j: int|
                0 <= j < locs.len() ==> !is_wanted(record, #[trigger] locs[j], t, name),
        },
    decreases locs.len(),
{
    if locs.len() > 0 {
        let rest = locs.skip(1);
        if is_wanted(record, locs[0], t, name) {
            assert(locs[0] == locs[0]);
        } else {
            lemma_first_wanted(record, rest, t, name);
            match first_wanted(record, rest, t, name) {
                Some(loc) => {
                    let i = choose|i: int|
                        0 <= i < rest.len() && #[trigger] rest[i] == loc && forall|j: int|
                            0 <= j < i ==> !is_wanted(record, #[trigger] rest[j], t, name);
                    assert(locs[i + 1] == loc);
                    assert forall|j: int| 0 <= j < i + 1 implies !is_wanted(
                        record,
                        #[trigger] locs[j],
                        t,
                        name,
                    ) by {
                        if j > 0 {
                            assert(rest[j - 1] == locs[j]);
                        }
                    }
                },
                None => {
                    assert forall|j: int| 0 <= j < locs.len() implies !is_wanted(
                        record,
                        #[trigger] locs[j],
                        t,
                        name,
                    ) by {
                        if j > 0 {
                            assert(rest[j - 1] == locs[j]);
                        }
                    }
                },
            }
        }
    }
}

proof fn lemma_walk_in_order(record: Seq<u8>, used: int, at: int)
    requires
        record.len() <= usize::MAX,
    ensures
        forall|i: int|
            0 <= i < attributes_from(record, used, at).len() ==> (#[trigger] attributes_from(
                record,
                used,
                at,
            )[i]).attr_offset >= at,
        forall|i: int, j: int|
            0 <= i < j < attributes_from(record, used, at).len() ==> (#[trigger] attributes_from(
                record,
                used,
                at,
            )[i]).attr_offset + attributes_from(record, used, at)[i].attr_length
                <= (#[trigger] attributes_from(record, used, at)[j]).attr_offset,
    decreases used - at,
{
    if attribute_at(record, used, at) {
        let all = attributes_from(record, used, at);
        let next = at + bytes::le32(record, at + attr_off::LENGTH);
        let rest = attributes_from(record, used, next);
        lemma_location_is_within(record, used, at);
        lemma_walk_in_order(record, used, next);
        assert forall|i: int| 0 <= i < all.len() implies (#[trigger] all[i]).attr_offset >= at by {
            if i > 0 {
                assert(all[i] == rest[i - 1]);
            }
        }
        assert forall|i: int, j: int| 0 <= i < j < all.len() implies (#[trigger] all[i]).attr_offset
            + all[i].attr_length <= (#[trigger] all[j]).attr_offset by {
            assert(all[j] == rest[j - 1]);
            if i > 0 {
                assert(all[i] == rest[i - 1]);
            }
        }
    }
}

/// The attributes of a record follow one another and do not overlap.
pub proof fn lemma_attributes_do_not_overlap(record: Seq<u8>)
    requires
        record.len() <= usize::MAX,
    ensures
        forall|i: int, j: int|
            0 <= i < j < attributes(record).len() ==> (#[trigger] attributes(record)[i]).attr_offset
                + attributes(record)[i].attr_length <= (#[trigger] attributes(
                record,
            )[j]).attr_offset,
{
    lemma_walk_in_order(record, bytes_in_use(record), attrs_start(record));
}

/// A name reads the same wherever its bytes are the same.
pub(crate) proof fn lemma_same_name(
    r: Seq<u8>,
    s: Seq<u8>,
    loc: AttrLocation,
    other: AttrLocation,
    want: Seq<char>,
)
    requires
        s.len() == r.len(),
        other.name_length == loc.name_length,
        other.attr_offset + other.name_offset == loc.attr_offset + loc.name_offset,
        forall|k: int|
            loc.attr_offset + loc.name_offset <= k < loc.attr_offset + loc.name_offset + 2
                * loc.name_length && k < r.len() ==> #[trigger] s[k] == r[k],
    ensures
        name_is(s, other, want) == name_is(r, loc, want),
{
    let start = loc.attr_offset + loc.name_offset;
    let n = loc.name_length as int;
    if n != 0 && start + 2 * n <= r.len() {
        assert(units_at(s, start, n) =~= units_at(r, start, n));
    }
}

proof fn lemma_first_wanted_is(
    record: Seq<u8>,
    locs: Seq<AttrLocation>,
    t: AttrType,
    name: Option<Seq<char>>,
    i: int,
)
    requires
        0 <= i < locs.len(),
        is_wanted(record, locs[i], t, name),
        forall|j: int| 0 <= j < i ==> !is_wanted(record, #[trigger] locs[j], t, name),
    ensures
        first_wanted(record, locs, t, name) == Some(locs[i]),
    decreases locs.len(),
{
    if i > 0 {
        assert(!is_wanted(record, locs[0], t, name));
        let rest = locs.skip(1);
        assert forall|j: int| 0 <= j < i - 1 implies !is_wanted(
            record,
            #[trigger] rest[j],
            t,
            name,
        ) by {
            assert(rest[j] == locs[j + 1]);
        }
        assert(rest[i - 1] == locs[i]);
        lemma_first_wanted_is(record, rest, t, name, i - 1);
    }
}

/// The attribute asked for is the one at place `i`.
pub(crate) proof fn lemma_found_at(record: Seq<u8>, t: AttrType, name: Option<Seq<char>>, i: int)
    requires
        0 <= i < attributes(record).len(),
        is_wanted(record, attributes(record)[i], t, name),
        forall|j: int| 0 <= j < i ==> !is_wanted(record, #[trigger] attributes(record)[j], t, name),
    ensures
        found_attribute(record, t, name) == Some(attributes(record)[i]),
{
    lemma_first_wanted_is(record, attributes(record), t, name, i);
}

/// What is found lies inside the record.
pub proof fn lemma_found_is_within(record: Seq<u8>, t: AttrType, name: Option<Seq<char>>)
    requires
        record.len() <= usize::MAX,
    ensures
        found_attribute(record, t, name) matches Some(loc) ==> within_record(loc, record)
            && loc.type_code == t.code(),
{
    lemma_attributes_are_within(record);
    lemma_found_is_first(record, t, name);
}

/// Finds the first attribute of the given type. `None` for a name asks for an
/// unnamed attribute.
pub fn find_attribute(record: &[u8], type_code: AttrType, name: Option<&str>) -> (r: Option<
    AttrLocation,
>)
    ensures
        r == found_attribute(record@, type_code, name_view(name)),
        r matches Some(loc) ==> within_record(loc, record@),
{
    let locs = iter_attributes(record);
    let code: u32 = type_code.to_u32();
    let size: usize = record.len();
    let mut i: usize = 0;
    proof {
        lemma_attributes_are_within(record@);
        lemma_found_is_within(record@, type_code, name_view(name));
        assert(locs@.skip(0) =~= locs@);
    }
    while i < locs.len()
        invariant
            locs@ == attributes(record@),
            size == record.len(),
            code == type_code.code(),
            i <= locs.len(),
            forall|k: int| 0 <= k < locs@.len() ==> within_record(#[trigger] locs@[k], record@),
            first_wanted(record@, locs@.skip(i as int), type_code, name_view(name))
                == found_attribute(record@, type_code, name_view(name)),
            found_attribute(record@, type_code, name_view(name)) matches Some(loc)
                ==> within_record(loc, record@),
        decreases locs.len() - i,
    {
        let loc = locs[i];
        assert(within_record(locs@[i as int], record@));
        assert(locs@.skip(i as int)[0] == loc);
        assert(locs@.skip(i as int).skip(1) =~= locs@.skip(i + 1));
        let hit: bool = if loc.type_code != code {
            false
        } else {
            match name {
                None => loc.name_length == 0,
                Some(want) => attr_name_equals(record, &loc, want),
            }
        };
        if hit {
            return Some(loc);
        }
        i = i + 1;
    }
    None
}

/// Byte offset within the record of the first byte of a resident value, or
/// `None` for a non-resident attribute.
pub fn resident_value_start(loc: &AttrLocation) -> (at: Option<usize>)
    requires
        loc.resident_value_offset matches Some(off) ==> loc.attr_offset + off <= usize::MAX,
    ensures
        at == (match loc.resident_value_offset {
            Some(off) => Some((loc.attr_offset + off) as usize),
            None => None,
        }),
{
    match loc.resident_value_offset {
        Some(off) => Some(loc.attr_offset + off as usize),
        None => None,
    }
}

/// The name of an attribute type, or `?(0xNN)` where the type has none.
pub open spec fn type_label(code: u32) -> Seq<char> {
    if code == 0x10 {
        "$STANDARD_INFORMATION"@
    } else if code == 0x20 {
        "$ATTRIBUTE_LIST"@
    } else if code == 0x30 {
        "$FILE_NAME"@
    } else if code == 0x40 {
        "$OBJECT_ID"@
    } else if code == 0x50 {
        "$SECURITY_DESCRIPTOR"@
    } else if code == 0x60 {
        "$VOLUME_NAME"@
    } else if code == 0x70 {
        "$VOLUME_INFORMATION"@
    } else if code == 0x80 {
        "$DATA"@
    } else if code == 0x90 {
        "$INDEX_ROOT"@
    } else if code == 0xA0 {
        "$INDEX_ALLOCATION"@
    } else if code == 0xB0 {
        "$BITMAP"@
    } else if code == 0xC0 {
        "$REPARSE_POINT"@
    } else if code == 0xD0 {
        "$EA_INFORMATION"@
    } else if code == 0xE0 {
        "$EA"@
    } else if code == 0x100 {
        "$LOGGED_UTILITY_STREAM"@
    } else {
        "?(0x"@ + text::hex(code as nat) + ")"@
    }
}

fn attr_type_label(type_code: u32) -> (s: String)
    ensures
        s@ == type_label(type_code),
{
    match type_code {
        0x10 => "$STANDARD_INFORMATION".to_owned(),
        0x20 => "$ATTRIBUTE_LIST".to_owned(),
        0x30 => "$FILE_NAME".to_owned(),
        0x40 => "$OBJECT_ID".to_owned(),
        0x50 => "$SECURITY_DESCRIPTOR".to_owned(),
        0x60 => "$VOLUME_NAME".to_owned(),
        0x70 => "$VOLUME_INFORMATION".to_owned(),
        0x80 => "$DATA".to_owned(),
        0x90 => "$INDEX_ROOT".to_owned(),
        0xA0 => "$INDEX_ALLOCATION".to_owned(),
        0xB0 => "$BITMAP".to_owned(),
        0xC0 => "$REPARSE_POINT".to_owned(),
        0xD0 => "$EA_INFORMATION".to_owned(),
        0xE0 => "$EA".to_owned(),
        0x100 => "$LOGGED_UTILITY_STREAM".to_owned(),
        other => "?(0x".to_owned().concat(hexadecimal(other as u64).as_str()).concat(")"),
    }
}

/// An attribute's name as text: empty where it has none, U+FFFD for every
/// unpaired surrogate, and a note of the place where it is not in the record.
pub open spec fn name_text(record: Seq<u8>, loc: AttrLocation) -> Seq<char> {
    let start = loc.attr_offset + loc.name_offset;
    let nbytes = 2 * loc.name_length;
    if loc.name_length == 0 {
        Seq::empty()
    } else if start + nbytes > record.len() {
        "<out-of-record: off="@ + text::dec(start as nat) + ", len="@ + text::dec(nbytes as nat)
            + ">"@
    } else {
        utf16::decoded_lossy(units_at(record, start, loc.name_length as int))
    }
}

/// Decodes an attribute's UTF-16 name, lossily, so that the caller still sees
/// what is there.
pub fn decode_attr_name(record: &[u8], loc: &AttrLocation) -> (s: String)
    requires
        loc.name_length != 0 ==> loc.attr_offset + loc.name_offset + 2 * loc.name_length
            <= usize::MAX,
    ensures
        s@ == name_text(record@, *loc),
{
    if loc.name_length == 0 {
        return String::new();
    }
    let start: usize = loc.attr_offset + loc.name_offset as usize;
    let nbytes: usize = loc.name_length as usize * 2;
    if start + nbytes > record.len() {
        return "<out-of-record: off=".to_owned().concat(decimal(start as u64).as_str()).concat(
            ", len=",
        ).concat(decimal(nbytes as u64).as_str()).concat(">");
    }
    let units = read_units(record, start, loc.name_length as usize);
    from_utf16_lossy(units.as_slice())
}

/// An attribute as a reader of diagnostics sees it: its names and dimensions.
#[derive(Debug, Clone)]
pub struct AttrDescription {
    pub type_code: u32,
    /// The well-known name of the type, or `?(0xNN)`.
    pub type_label: String,
    /// The attribute's own name, decoded lossily.
    pub name: String,
    pub attribute_id: u16,
    /// Byte offset of the attribute's header within the record.
    pub attr_offset: usize,
    pub attr_length: usize,
    pub is_resident: bool,
    /// The declared length of the value, of either form.
    pub value_length: u64,
}

/// `d` says of `loc` what an attribute's description says.
pub open spec fn describes(d: AttrDescription, record: Seq<u8>, loc: AttrLocation) -> bool {
    &&& d.type_code == loc.type_code
    &&& d.type_label@ == type_label(loc.type_code)
    &&& d.name@ == name_text(record, loc)
    &&& d.attribute_id == loc.attribute_id
    &&& d.attr_offset == loc.attr_offset
    &&& d.attr_length == loc.attr_length
    &&& d.is_resident == loc.is_resident
    &&& d.value_length == if loc.is_resident {
        loc.resident_value_length->Some_0 as u64
    } else {
        loc.non_resident_value_length->Some_0
    }
}

/// One description for each attribute of the record, in order. Records that
/// extend this one are not followed.
pub fn describe_attributes(record: &[u8]) -> (ds: Vec<AttrDescription>)
    ensures
        ds@.len() == attributes(record@).len(),
        forall|i: int|
            0 <= i < ds@.len() ==> describes(#[trigger] ds@[i], record@, attributes(record@)[i]),
{
    let locs = iter_attributes(record);
    let size: usize = record.len();
    let mut ds: Vec<AttrDescription> = Vec::new();
    let mut i: usize = 0;
    proof {
        lemma_attributes_are_within(record@);
    }
    while i < locs.len()
        invariant
            locs@ == attributes(record@),
            size == record.len(),
            i <= locs.len(),
            ds@.len() == i,
            forall|k: int| 0 <= k < locs@.len() ==> within_record(#[trigger] locs@[k], record@),
            forall|k: int| 0 <= k < i ==> describes(#[trigger] ds@[k], record@, locs@[k]),
        decreases locs.len() - i,
    {
        let loc = locs[i];
        assert(within_record(locs@[i as int], record@));
        let value_length: u64 = if loc.is_resident {
            match loc.resident_value_length {
                Some(n) => n as u64,
                None => 0,
            }
        } else {
            match loc.non_resident_value_length {
                Some(n) => n,
                None => 0,
            }
        };
        ds.push(
            AttrDescription {
                type_code: loc.type_code,
                type_label: attr_type_label(loc.type_code),
                name: decode_attr_name(record, &loc),
                attribute_id: loc.attribute_id,
                attr_offset: loc.attr_offset,
                attr_length: loc.attr_length,
                is_resident: loc.is_resident,
                value_length,
            },
        );
        i = i + 1;
    }
    ds
}

} // verus!
