//! What a file record holds, attribute by attribute, and what resizing does to
//! its bytes.

use vstd::prelude::*;

use crate::attr_io;
use crate::attr_io::{AttrDescription, AttrLocation, AttrType};
use crate::attr_off;
use crate::attr_resize;
use crate::bytes;
use crate::utf16;

verus! {

/// The fields of a record's header, and of an attribute's: where each stands.
pub proof fn lemma_where_header_fields_stand()
    ensures
        attr_io::REC_OFF_ATTRS_OFFSET == 0x14,
        attr_io::REC_OFF_BYTES_USED == 0x18,
        attr_resize::REC_OFF_BYTES_USED == 0x18,
        attr_resize::REC_OFF_BYTES_ALLOCATED == 0x1C,
        attr_resize::REC_OFF_NEXT_ATTR_ID == 0x28,
        attr_io::END_MARKER == 0xFFFF_FFFF,
        attr_off::TYPE == 0,
        attr_off::LENGTH == 4,
        attr_off::NON_RESIDENT == 8,
        attr_off::NAME_LENGTH == 9,
        attr_off::NAME_OFFSET == 0xA,
        attr_off::FLAGS == 0xC,
        attr_off::ATTRIBUTE_ID == 0xE,
        attr_off::RESIDENT_VALUE_LENGTH == 0x10,
        attr_off::RESIDENT_VALUE_OFFSET == 0x14,
        attr_off::NONRES_FIRST_VCN == 0x10,
        attr_off::NONRES_LAST_VCN == 0x18,
        attr_off::NONRES_MAPPING_PAIRS_OFFSET == 0x20,
        attr_off::NONRES_ALLOCATED_LENGTH == 0x28,
        attr_off::NONRES_DATA_LENGTH == 0x30,
        attr_off::NONRES_INITIALIZED_LENGTH == 0x38,
{
}

/// The types of attributes are numbered by sixteens, from 0x10 on, in the order
/// in which a record keeps them, and a number names the type that it is the
/// number of.
pub proof fn lemma_type_numbers(t: AttrType, v: u32)
    ensures
        t.code() == 16 * (match t {
            AttrType::StandardInformation => 1int,
            AttrType::AttributeList => 2,
            AttrType::FileName => 3,
            AttrType::ObjectId => 4,
            AttrType::SecurityDescriptor => 5,
            AttrType::VolumeName => 6,
            AttrType::VolumeInformation => 7,
            AttrType::Data => 8,
            AttrType::IndexRoot => 9,
            AttrType::IndexAllocation => 10,
            AttrType::Bitmap => 11,
            AttrType::ReparsePoint => 12,
            AttrType::ExtendedAttributeInformation => 13,
            AttrType::ExtendedAttribute => 14,
        }),
        AttrType::of_code(t.code()) == Some(t),
        AttrType::of_code(v) is Some <==> v % 16 == 0 && 0x10 <= v <= 0xE0,
        AttrType::of_code(v) matches Some(of) ==> of.code() == v,
{
}

/// The bytes of an attribute: it is as long as it says, a multiple of 8, its type
/// is not the mark of the end, and its header, its name and its value, or its run
/// list, are inside.
pub open spec fn is_attribute(a: Seq<u8>) -> bool {
    &&& a.len() >= 0x18
    &&& a.len() % 8 == 0
    &&& bytes::le32(a, 4) == a.len()
    &&& bytes::le32(a, 0) != 0xFFFF_FFFF
    &&& a[9] != 0 ==> bytes::le16(a, 0xA) + 2 * a[9] <= a.len()
    &&& if a[8] == 0 {
        &&& 0x18 <= bytes::le16(a, 0x14)
        &&& bytes::le16(a, 0x14) + bytes::le32(a, 0x10) <= a.len()
    } else {
        &&& a.len() >= 0x40
        &&& 0x40 <= bytes::le16(a, 0x20) <= a.len()
    }
}

/// What a list of attributes says of one that stands at `at`.
pub open spec fn is_located(loc: AttrLocation, a: Seq<u8>, at: int) -> bool {
    &&& loc.type_code == bytes::le32(a, 0)
    &&& loc.attr_offset == at
    &&& loc.attr_length == a.len()
    &&& loc.is_resident == (a[8] == 0)
    &&& loc.name_length == a[9]
    &&& loc.name_offset == bytes::le16(a, 0xA)
    &&& loc.attribute_id == bytes::le16(a, 0xE)
    &&& if a[8] == 0 {
        &&& loc.resident_value_length matches Some(n) && n == bytes::le32(a, 0x10)
        &&& loc.resident_value_offset matches Some(o) && o == bytes::le16(a, 0x14)
        &&& loc.non_resident_value_length is None
        &&& loc.non_resident_mapping_pairs_offset is None
    } else {
        &&& loc.resident_value_length is None
        &&& loc.resident_value_offset is None
        &&& loc.non_resident_value_length matches Some(n) && n == bytes::le64(a, 0x30)
        &&& loc.non_resident_mapping_pairs_offset matches Some(o) && o == bytes::le16(a, 0x20)
    }
}

/// The attributes one behind the other.
pub open spec fn joined(list: Seq<Seq<u8>>) -> Seq<u8>
    decreases list.len(),
{
    if list.len() == 0 {
        Seq::empty()
    } else {
        list[0] + joined(list.skip(1))
    }
}

/// The bytes of the first `k` attributes.
pub open spec fn length_of(list: Seq<Seq<u8>>, k: int) -> int
    decreases k,
{
    if k <= 0 {
        0
    } else {
        length_of(list, k - 1) + list[k - 1].len()
    }
}

/// A record has the attributes that stand one behind the other from the place
/// that it names on, up to the mark of the end. Each is found with its fields.
pub proof fn lemma_record_has_its_attributes(head: Seq<u8>, list: Seq<Seq<u8>>, tail: Seq<u8>)
    requires
        head.len() >= 0x1C,
        bytes::le16(head, 0x14) == head.len(),
        forall|k: int| 0 <= k < list.len() ==> is_attribute(#[trigger] list[k]),
        tail.len() >= 4,
        bytes::le32(tail, 0) == 0xFFFF_FFFF,
        head.len() + joined(list).len() <= bytes::le32(head, 0x18) <= head.len() + joined(
            list,
        ).len() + tail.len(),
        head.len() + joined(list).len() + tail.len() <= usize::MAX,
    ensures
        ({
            let found = attr_io::attributes(head + joined(list) + tail);
            &&& found.len() == list.len()
            &&& forall|k: int|
                0 <= k < list.len() ==> is_located(
                    #[trigger] found[k],
                    list[k],
                    head.len() + length_of(list, k),
                )
        }),
{
    let r = head + joined(list) + tail;
    let used = bytes::le32(head, 0x18);
    assert(forall|k: int| 0 <= k < head.len() ==> r[k] == head[k]);
    assert(bytes::le16(r, 0x14) == bytes::le16(head, 0x14));
    assert(bytes::le32(r, 0x18) == used);
    assert(list.skip(0) =~= list);
    assert(r.skip(head.len() as int) =~= joined(list.skip(0)) + tail);
    lemma_attributes_follow(r, used, list, tail, head.len() as int, 0);
}

proof fn lemma_attributes_follow(
    r: Seq<u8>,
    used: int,
    list: Seq<Seq<u8>>,
    tail: Seq<u8>,
    at: int,
    i: int,
)
    requires
        0 <= i <= list.len(),
        0 <= at,
        r.len() <= usize::MAX,
        used <= r.len(),
        at <= r.len(),
        r.skip(at) == joined(list.skip(i)) + tail,
        at + joined(list.skip(i)).len() <= used,
        forall|k: int| 0 <= k < list.len() ==> is_attribute(#[trigger] list[k]),
        tail.len() >= 4,
        bytes::le32(tail, 0) == 0xFFFF_FFFF,
    ensures
        ({
            let found = attr_io::attributes_from(r, used, at);
            &&& found.len() == list.len() - i
            &&& forall|k: int|
                0 <= k < list.len() - i ==> is_located(
                    #[trigger] found[k],
                    list[i + k],
                    at - length_of(list, i) + length_of(list, i + k),
                )
        }),
    decreases list.len() - i,
{
    let rest = list.skip(i);
    assert(r.skip(at).len() == r.len() - at);
    if i == list.len() {
        assert(joined(rest) + tail =~= tail);
        assert forall|k: int| 0 <= k < 4 implies r[at + k] == #[trigger] tail[k] by {
            assert(r.skip(at)[k] == r[at + k]);
        }
        assert(bytes::le32(r, at) == 0xFFFF_FFFF);
    } else {
        let a = list[i];
        let more = joined(list.skip(i + 1)) + tail;
        assert(rest[0] == a);
        assert(rest.skip(1) =~= list.skip(i + 1));
        assert(joined(rest) == a + joined(list.skip(i + 1)));
        assert(joined(rest) + tail =~= a + more);
        assert forall|k: int| 0 <= k < a.len() implies r[at + k] == #[trigger] a[k] by {
            assert(r.skip(at)[k] == r[at + k]);
        }
        lemma_same_fields(r, at, a);
        let next = at + a.len() as int;
        assert(r.skip(next) =~= more) by {
            assert forall|k: int| 0 <= k < more.len() implies r[next + k] == #[trigger] more[k] by {
                assert(r.skip(at)[a.len() + k] == r[next + k]);
            }
        }
        assert(attr_io::attribute_at(r, used, at));
        lemma_attributes_follow(r, used, list, tail, next, i + 1);
        let found = attr_io::attributes_from(r, used, at);
        let behind = attr_io::attributes_from(r, used, next);
        assert(found == seq![attr_io::location_at(r, at)] + behind);
        assert forall|k: int| 0 <= k < list.len() - i implies is_located(
            #[trigger] found[k],
            list[i + k],
            at - length_of(list, i) + length_of(list, i + k),
        ) by {
            if k > 0 {
                assert(found[k] == behind[k - 1]);
                assert(is_located(
                    behind[k - 1],
                    list[i + 1 + (k - 1)],
                    next - length_of(list, i + 1) + length_of(list, i + 1 + (k - 1)),
                ));
            }
        }
    }
}

proof fn lemma_same_fields(r: Seq<u8>, at: int, a: Seq<u8>)
    requires
        0 <= at,
        at + a.len() <= r.len(),
        is_attribute(a),
        forall|k: int| 0 <= k < a.len() ==> r[at + k] == #[trigger] a[k],
    ensures
        bytes::le32(r, at) == bytes::le32(a, 0),
        bytes::le32(r, at + 4) == bytes::le32(a, 4),
        r[at + 8] == a[8],
        r[at + 9] == a[9],
        bytes::le16(r, at + 0xA) == bytes::le16(a, 0xA),
        bytes::le16(r, at + 0xE) == bytes::le16(a, 0xE),
        bytes::le32(r, at + 0x10) == bytes::le32(a, 0x10),
        bytes::le16(r, at + 0x14) == bytes::le16(a, 0x14),
        a.len() >= 0x40 ==> bytes::le16(r, at + 0x20) == bytes::le16(a, 0x20),
        a.len() >= 0x40 ==> bytes::le64(r, at + 0x30) == bytes::le64(a, 0x30),
{
    assert(r[at] == a[0] && r[at + 1] == a[1] && r[at + 2] == a[2] && r[at + 3] == a[3]);
    assert(r[at + 4] == a[4] && r[at + 5] == a[5] && r[at + 6] == a[6] && r[at + 7] == a[7]);
    assert(r[at + 8] == a[8] && r[at + 9] == a[9] && r[at + 0xA] == a[0xA] && r[at + 0xB]
        == a[0xB]);
    assert(r[at + 0xE] == a[0xE] && r[at + 0xF] == a[0xF]);
    assert(r[at + 0x10] == a[0x10] && r[at + 0x11] == a[0x11] && r[at + 0x12] == a[0x12] && r[at
        + 0x13] == a[0x13] && r[at + 0x14] == a[0x14] && r[at + 0x15] == a[0x15]);
    if a.len() >= 0x40 {
        assert(r[at + 0x20] == a[0x20] && r[at + 0x21] == a[0x21]);
        assert(r[at + 0x30] == a[0x30] && r[at + 0x31] == a[0x31] && r[at + 0x32] == a[0x32]
            && r[at + 0x33] == a[0x33] && r[at + 0x34] == a[0x34] && r[at + 0x35] == a[0x35]
            && r[at + 0x36] == a[0x36] && r[at + 0x37] == a[0x37]);
    }
}

/// An attribute is wanted by its type's number and its name. One without a name
/// is wanted where none is asked for, or an empty one; one with a name where the
/// units of the name are those of what is asked for.
pub proof fn lemma_wanted_by_type_and_name(
    r: Seq<u8>,
    loc: AttrLocation,
    t: AttrType,
    is: Seq<char>,
    want: Seq<char>,
)
    requires
        loc.name_length > 0 ==> {
            let start = loc.attr_offset + loc.name_offset;
            &&& start + 2 * loc.name_length <= r.len()
            &&& utf16::encoded(is).len() == loc.name_length
            &&& forall|i: int|
                0 <= i < loc.name_length ==> #[trigger] utf16::encoded(is)[i] == r[start + 2 * i]
                    + 256 * r[start + 2 * i + 1]
        },
    ensures
        attr_io::is_wanted(r, loc, t, None) <==> loc.type_code == t.code() && loc.name_length == 0,
        loc.name_length == 0 ==> (attr_io::is_wanted(r, loc, t, Some(want)) <==> loc.type_code
            == t.code() && want.len() == 0),
        loc.name_length > 0 ==> (attr_io::is_wanted(r, loc, t, Some(want)) <==> loc.type_code
            == t.code() && want == is),
        loc.name_length > 0 ==> attr_io::name_text(r, loc) == is,
        loc.name_length == 0 ==> attr_io::name_text(r, loc).len() == 0,
{
    if loc.name_length > 0 {
        let start = loc.attr_offset + loc.name_offset;
        let u = attr_io::units_at(r, start, loc.name_length as int);
        assert(u =~= utf16::encoded(is)) by {
            assert forall|i: int| 0 <= i < u.len() implies u[i] == utf16::encoded(is)[i] by {
                let e = utf16::encoded(is)[i];
            }
        }
        utf16::lemma_decode_of_encode(is);
    }
}

/// Lengths are rounded up to the next multiple of 8, and no further.
pub proof fn lemma_rounded_up(n: int)
    requires
        0 <= n,
    ensures
        attr_resize::aligned8(n) % 8 == 0,
        n <= attr_resize::aligned8(n) < n + 8,
{
}

/// Where a record says how many of its bytes are used and how many there are, and
/// an attribute how long it is.
pub proof fn lemma_where_lengths_stand(r: Seq<u8>, at: int)
    ensures
        attr_resize::used(r) == bytes::le32(r, 0x18),
        attr_resize::allocated(r) == bytes::le32(r, 0x1C),
        attr_resize::length_at(r, at) == bytes::le32(r, at + 4),
{
}

proof fn lemma_rounded_up_is(n: int, new: int)
    requires
        new % 8 == 0,
        n <= new < n + 8,
    ensures
        attr_resize::aligned8(n) == new,
{
}

/// A value can be given another length exactly where it is resident and the
/// record has room for what the attribute grows by. The attribute is then as long
/// as its header and the value need, rounded up to a multiple of 8.
pub proof fn lemma_when_a_value_can_be_resized(r: Seq<u8>, at: int, n: int, new: int)
    requires
        new % 8 == 0,
        bytes::le16(r, at + 0x14) + n <= new < bytes::le16(r, at + 0x14) + n + 8,
    ensures
        attr_resize::resized(r, at, n) is Ok <==> r[at + 8] == 0 && (new <= attr_resize::length_at(
            r,
            at,
        ) || attr_resize::used(r) + new - attr_resize::length_at(r, at) <= attr_resize::allocated(
            r,
        )),
{
    lemma_rounded_up_is(bytes::le16(r, at + 0x14) + n, new);
}

/// A value can be set exactly where it can be given that length.
pub proof fn lemma_when_a_value_can_be_set(r: Seq<u8>, at: int, v: Seq<u8>)
    ensures
        attr_resize::value_set(r, at, v) is Ok <==> attr_resize::resized(r, at, v.len() as int)
            is Ok,
{
}

/// What resizing a value does to the record's bytes: the three lengths are the
/// new ones, what stood behind the attribute stands behind it still, what the
/// value gained is zero, and what the record no longer uses is zero. All else is
/// as it was.
pub proof fn lemma_resized_byte_by_byte(r: Seq<u8>, at: int, n: int, new: int)
    requires
        0x20 <= at,
        0 <= n <= u32::MAX,
        attr_io::attribute_at(r, attr_resize::used(r), at),
        attr_resize::resize_defined(r, at, n),
        attr_resize::resized(r, at, n) is Ok,
        new % 8 == 0,
        bytes::le16(r, at + 0x14) + n <= new < bytes::le16(r, at + 0x14) + n + 8,
    ensures
        ({
            let s = attr_resize::resized(r, at, n)->Ok_0;
            let old_length = attr_resize::length_at(r, at);
            let used = attr_resize::used(r);
            let now = used + new - old_length;
            &&& s.len() == r.len()
            &&& attr_resize::length_at(s, at) == new
            &&& attr_resize::used(s) == now
            &&& bytes::le32(s, at + 0x10) == n
            &&& forall|k: int|
                0 <= k < at && !(0x18 <= k < 0x1C) ==> #[trigger] s[k] == r[k]
            &&& forall|k: int|
                at <= k < at + old_length && k < at + new && !(at + 4 <= k < at + 8) && !(at + 0x10
                    <= k < at + 0x14) ==> #[trigger] s[k] == r[k]
            &&& forall|k: int|
                at + new <= k < now ==> #[trigger] s[k] == r[k - new + old_length]
            &&& forall|k: int|
                at + old_length <= k < at + new && k < r.len() ==> #[trigger] s[k] == 0
            &&& forall|k: int| now <= k < used ==> #[trigger] s[k] == 0
            &&& forall|k: int| used <= k < r.len() && now <= k ==> #[trigger] s[k] == r[k]
        }),
{
    lemma_rounded_up_is(bytes::le16(r, at + 0x14) + n, new);
    lemma_resident_header(r, at);
    attr_resize::lemma_resized_bytes(r, at, n);
    lemma_resized_rest(r, at, n);
}

proof fn lemma_resident_header(r: Seq<u8>, at: int)
    requires
        attr_io::attribute_at(r, attr_resize::used(r), at),
    ensures
        attr_resize::length_at(r, at) >= 0x18,
        at + attr_resize::length_at(r, at) <= attr_resize::used(r) <= r.len(),
        !attr_io::non_resident_at(r, at) ==> bytes::le16(r, at + 0x14) >= 0x18,
{
}

proof fn lemma_resized_rest(r: Seq<u8>, at: int, n: int)
    requires
        0x20 <= at,
        0x18 <= attr_resize::length_at(r, at),
        at + attr_resize::length_at(r, at) <= attr_resize::used(r) <= r.len(),
        0x18 <= attr_resize::length_for_value(r, at, n),
        attr_resize::resized(r, at, n) is Ok,
    ensures
        ({
            let s = attr_resize::resized(r, at, n)->Ok_0;
            let old_length = attr_resize::length_at(r, at);
            let new = attr_resize::length_for_value(r, at, n);
            let used = attr_resize::used(r);
            let now = used + new - old_length;
            &&& forall|k: int|
                at + old_length <= k < at + new && k < r.len() ==> #[trigger] s[k] == 0
            &&& forall|k: int| now <= k < used ==> #[trigger] s[k] == 0
            &&& forall|k: int| used <= k < r.len() && now <= k ==> #[trigger] s[k] == r[k]
        }),
{
    let s = attr_resize::resized(r, at, n)->Ok_0;
    let old_length = attr_resize::length_at(r, at);
    let new = attr_resize::length_for_value(r, at, n);
    let used = attr_resize::used(r);
    assert(bytes::bytes32(n).len() == 4);
    assert(bytes::bytes32(new).len() == 4);
    assert(bytes::bytes32(used + (at + new) - (at + old_length)).len() == 4);
    if new != old_length {
        let moved = attr_resize::shifted(r, at + old_length, used, at + new);
        assert forall|k: int| at + 0x18 <= k < r.len() implies #[trigger] s[k] == moved[k] by {}
    } else {
        assert forall|k: int| at + 0x18 <= k < r.len() implies #[trigger] s[k] == r[k] by {}
    }
}

/// An attribute can take the place of another, or be added, exactly where its
/// length is a multiple of 8 and what its header says, and the record has room. To
/// be added it also needs the mark of the end to be there.
pub proof fn lemma_when_an_attribute_can_be_put(r: Seq<u8>, at: int, a: Seq<u8>)
    ensures
        attr_resize::replaced(r, at, a) is Ok <==> a.len() > 0 && a.len() % 8 == 0 && bytes::le32(
            a,
            4,
        ) == a.len() && (a.len() <= bytes::le32(r, at + 4) || bytes::le32(r, 0x18) + a.len()
            - bytes::le32(r, at + 4) <= bytes::le32(r, 0x1C)),
        attr_resize::inserted(r, a) is Ok <==> a.len() > 0 && a.len() % 8 == 0 && bytes::le32(a, 4)
            == a.len() && bytes::le32(r, 0x18) + a.len() <= bytes::le32(r, 0x1C)
            && attr_resize::marker(r) is Some,
{
}

/// The mark of the end is found behind attributes that stand one behind the
/// other.
pub proof fn lemma_marker_is_found(head: Seq<u8>, list: Seq<Seq<u8>>, tail: Seq<u8>)
    requires
        head.len() >= 0x1C,
        bytes::le16(head, 0x14) == head.len(),
        forall|k: int|
            0 <= k < list.len() ==> is_attribute(#[trigger] list[k]) && bytes::le32(list[k], 0)
                != 0,
        tail.len() >= 8,
        bytes::le32(tail, 0) == 0xFFFF_FFFF,
        head.len() + joined(list).len() + 4 <= bytes::le32(head, 0x18) <= head.len() + joined(
            list,
        ).len() + tail.len() - 4,
    ensures
        attr_resize::marker(head + joined(list) + tail) == Some(
            head.len() + joined(list).len() as int,
        ),
{
    let r = head + joined(list) + tail;
    let used = bytes::le32(head, 0x18);
    assert(forall|k: int| 0 <= k < head.len() ==> r[k] == head[k]);
    assert(bytes::le16(r, 0x14) == bytes::le16(head, 0x14));
    assert(bytes::le32(r, 0x18) == used);
    assert(list.skip(0) =~= list);
    assert(r.skip(head.len() as int) =~= joined(list.skip(0)) + tail);
    lemma_marker_follows(r, used, list, tail, head.len() as int, 0);
}

proof fn lemma_marker_follows(
    r: Seq<u8>,
    end: int,
    list: Seq<Seq<u8>>,
    tail: Seq<u8>,
    at: int,
    i: int,
)
    requires
        0 <= i <= list.len(),
        0 <= at <= r.len(),
        end <= r.len(),
        r.skip(at) == joined(list.skip(i)) + tail,
        at + joined(list.skip(i)).len() + 4 <= end,
        forall|k: int|
            0 <= k < list.len() ==> is_attribute(#[trigger] list[k]) && bytes::le32(list[k], 0)
                != 0,
        tail.len() >= 4,
        bytes::le32(tail, 0) == 0xFFFF_FFFF,
    ensures
        attr_resize::marker_from(r, end, at) == Some(at + joined(list.skip(i)).len() as int),
    decreases list.len() - i,
{
    let rest = list.skip(i);
    assert(r.skip(at).len() == r.len() - at);
    if i == list.len() {
        assert(joined(rest) + tail =~= tail);
        assert forall|k: int| 0 <= k < 4 implies r[at + k] == #[trigger] tail[k] by {
            assert(r.skip(at)[k] == r[at + k]);
        }
        assert(bytes::le32(r, at) == 0xFFFF_FFFF);
    } else {
        let a = list[i];
        let more = joined(list.skip(i + 1)) + tail;
        assert(rest[0] == a);
        assert(rest.skip(1) =~= list.skip(i + 1));
        assert(joined(rest) == a + joined(list.skip(i + 1)));
        assert(joined(rest) + tail =~= a + more);
        assert forall|k: int| 0 <= k < a.len() implies r[at + k] == #[trigger] a[k] by {
            assert(r.skip(at)[k] == r[at + k]);
        }
        lemma_same_fields(r, at, a);
        let next = at + a.len() as int;
        assert(r.skip(next) =~= more) by {
            assert forall|k: int| 0 <= k < more.len() implies r[next + k] == #[trigger] more[k] by {
                assert(r.skip(at)[a.len() + k] == r[next + k]);
            }
        }
        lemma_marker_follows(r, end, list, tail, next, i + 1);
    }
}

/// A record uses as many bytes as it says, and no more than it has. Its attributes
/// begin where it says.
pub proof fn lemma_bytes_of_a_record_in_use(r: Seq<u8>)
    requires
        r.len() >= 0x1C,
    ensures
        attr_io::attrs_start(r) == bytes::le16(r, 0x14),
        bytes::le32(r, 0x18) <= r.len() ==> attr_io::bytes_in_use(r) == bytes::le32(r, 0x18),
        bytes::le32(r, 0x18) > r.len() ==> attr_io::bytes_in_use(r) == r.len(),
        attr_io::attributes(r) == attr_io::attributes_from(
            r,
            attr_io::bytes_in_use(r),
            attr_io::attrs_start(r),
        ),
{
}

/// What is not an attribute ends the list: one that is not all inside, or whose
/// length is not a multiple of 8 or too short for its header, or whose name, value
/// or run list is not inside it.
pub proof fn lemma_what_ends_the_attributes(r: Seq<u8>, used: int, at: int)
    requires
        0 <= at,
        used <= r.len(),
        ({
            let n = bytes::le32(r, at + 4);
            ||| at + 16 > used
            ||| bytes::le32(r, at) == 0xFFFF_FFFF
            ||| n % 8 != 0
            ||| n < 0x18
            ||| at + n > used
            ||| r[at + 9] != 0 && bytes::le16(r, at + 0xA) + 2 * r[at + 9] > n
            ||| r[at + 8] == 0 && (bytes::le16(r, at + 0x14) < 0x18 || bytes::le16(r, at + 0x14)
                + bytes::le32(r, at + 0x10) > n)
            ||| r[at + 8] != 0 && (n < 0x40 || bytes::le16(r, at + 0x20) < 0x40 || bytes::le16(
                r,
                at + 0x20,
            ) > n)
        }),
    ensures
        attr_io::attributes_from(r, used, at).len() == 0,
{
    assert(!attr_io::attribute_at(r, used, at));
}

/// What is said of an attribute in words is what stands in its header: among it
/// the length of its value, wherever that is.
pub proof fn lemma_attribute_in_words(d: AttrDescription, r: Seq<u8>, loc: AttrLocation)
    requires
        attr_io::describes(d, r, loc),
    ensures
        d.type_code == loc.type_code,
        d.attribute_id == loc.attribute_id,
        d.attr_offset == loc.attr_offset,
        d.attr_length == loc.attr_length,
        d.is_resident == loc.is_resident,
        loc.is_resident ==> d.value_length == loc.resident_value_length->0,
        !loc.is_resident ==> d.value_length == loc.non_resident_value_length->0,
        d.name@ == attr_io::name_text(r, loc),
        d.type_label@ == attr_io::type_label(loc.type_code),
{
}

/// The names of the types of attributes, by their numbers.
pub proof fn lemma_names_of_types(code: u32)
    ensures
        attr_io::type_label(AttrType::StandardInformation.code()) == "$STANDARD_INFORMATION"@,
        attr_io::type_label(AttrType::AttributeList.code()) == "$ATTRIBUTE_LIST"@,
        attr_io::type_label(AttrType::FileName.code()) == "$FILE_NAME"@,
        attr_io::type_label(AttrType::ObjectId.code()) == "$OBJECT_ID"@,
        attr_io::type_label(AttrType::SecurityDescriptor.code()) == "$SECURITY_DESCRIPTOR"@,
        attr_io::type_label(AttrType::VolumeName.code()) == "$VOLUME_NAME"@,
        attr_io::type_label(AttrType::VolumeInformation.code()) == "$VOLUME_INFORMATION"@,
        attr_io::type_label(AttrType::Data.code()) == "$DATA"@,
        attr_io::type_label(AttrType::IndexRoot.code()) == "$INDEX_ROOT"@,
        attr_io::type_label(AttrType::IndexAllocation.code()) == "$INDEX_ALLOCATION"@,
        attr_io::type_label(AttrType::Bitmap.code()) == "$BITMAP"@,
        attr_io::type_label(AttrType::ReparsePoint.code()) == "$REPARSE_POINT"@,
        attr_io::type_label(AttrType::ExtendedAttributeInformation.code()) == "$EA_INFORMATION"@,
        attr_io::type_label(AttrType::ExtendedAttribute.code()) == "$EA"@,
        attr_io::type_label(0x100) == "$LOGGED_UTILITY_STREAM"@,
        AttrType::of_code(code) is None && code != 0x100 ==> attr_io::type_label(code) == "?(0x"@
            + crate::text::hex(code as nat) + ")"@,
{
}

/// No mark of the end is found behind what cannot be walked over: a type of zero,
/// or a length that is zero or leads past the end.
pub proof fn lemma_where_no_marker_is_found(r: Seq<u8>, end: int, at: int)
    requires
        at + 4 > end || bytes::le32(r, at) == 0 || (bytes::le32(r, at) != 0xFFFF_FFFF && (
        bytes::le32(r, at + 4) == 0 || at + bytes::le32(r, at + 4) > end)),
    ensures
        attr_resize::marker_from(r, end, at) is None,
{
}

} // verus!
