//! Changing the size of an attribute within its file record.
//!
//! The attributes behind the changed one move so that they still follow one
//! another without a gap, and the record's count of bytes in use follows.
//! Every function works on a clean (post-fixup) record.

use vstd::prelude::*;

use crate::attr_io;
use crate::attr_off;
use crate::bytes;
use crate::bytes::{fill_bytes, get_u16, get_u32, move_bytes, put_u16, put_u32, write_bytes};
use crate::text;
use crate::text::decimal;

verus! {

pub const REC_OFF_BYTES_USED: usize = 0x18;

pub const REC_OFF_BYTES_ALLOCATED: usize = 0x1C;

pub const REC_OFF_NEXT_ATTR_ID: usize = 0x28;

/// The least multiple of 8 that is not below `n`.
pub open spec fn aligned8(n: int) -> int {
    (n + 7) / 8 * 8
}

/// Rounds up to a multiple of 8. Every attribute's length is one.
pub fn align_up_8(n: usize) -> (r: usize)
    requires
        n + 7 <= usize::MAX,
    ensures
        r == aligned8(n as int),
        n <= r < n + 8,
        r % 8 == 0,
{
    (n + 7) / 8 * 8
}

/// The bytes of the record that its header says are in use.
pub open spec fn used(r: Seq<u8>) -> int {
    bytes::le32(r, REC_OFF_BYTES_USED as int)
}

/// The bytes that its header says the record has.
pub open spec fn allocated(r: Seq<u8>) -> int {
    bytes::le32(r, REC_OFF_BYTES_ALLOCATED as int)
}

/// The length of the attribute at `at`.
pub open spec fn length_at(r: Seq<u8>, at: int) -> int {
    bytes::le32(r, at + attr_off::LENGTH)
}

/// `r` with the bytes of `[from, end)` moved to begin at `to`. What they leave
/// behind, and what opens between, is zero.
pub open spec fn shifted(r: Seq<u8>, from: int, end: int, to: int) -> Seq<u8> {
    let low = if from < to { from } else { to };
    let high = if from < to { end + to - from } else { end };
    Seq::new(
        r.len(),
        |i: int|
            if to <= i < to + end - from {
                r[i - to + from]
            } else if low <= i < high {
                0
            } else {
                r[i]
            },
    )
}

/// The length of a resident attribute whose value is `n` bytes long.
pub open spec fn length_for_value(r: Seq<u8>, at: int, n: int) -> int {
    aligned8(bytes::le16(r, at + attr_off::RESIDENT_VALUE_OFFSET) + n)
}

/// `r` with the attribute at `at` made `new_length` bytes long: what follows
/// it moves, and the count of bytes in use follows.
pub open spec fn with_length(r: Seq<u8>, at: int, new_length: int) -> Seq<u8> {
    let from = at + length_at(r, at);
    let to = at + new_length;
    bytes::patch(
        shifted(r, from, used(r), to),
        REC_OFF_BYTES_USED as int,
        bytes::bytes32(used(r) + to - from),
    )
}

/// The record has no room for an attribute of `new_length` bytes at `at`.
pub open spec fn too_long(r: Seq<u8>, at: int, new_length: int) -> bool {
    new_length > length_at(r, at) && used(r) + new_length - length_at(r, at) > allocated(r)
}

/// The record's own fields are such that what follows the attribute at `at`
/// can move: it ends inside the bytes in use, and these inside the record,
/// before and after.
pub open spec fn can_move(r: Seq<u8>, at: int, new_length: int) -> bool {
    &&& at + length_at(r, at) <= used(r) <= r.len()
    &&& used(r) + new_length - length_at(r, at) <= r.len()
}

/// The inputs on which `resize_resident_value` is defined.
pub open spec fn resize_defined(r: Seq<u8>, at: int, n: int) -> bool {
    let new_length = length_for_value(r, at, n);
    &&& at + attr_off::NON_RESIDENT < r.len()
    &&& !attr_io::non_resident_at(r, at) ==> {
        &&& at + attr_off::RESIDENT_VALUE_OFFSET + 2 <= r.len()
        &&& new_length != length_at(r, at) ==> {
            &&& REC_OFF_BYTES_ALLOCATED + 4 <= r.len()
            &&& too_long(r, at, new_length) || can_move(r, at, new_length)
        }
    }
}

/// The record after the value of the attribute at `at` was made `n` bytes
/// long, or the reason why it cannot be.
pub open spec fn resized(r: Seq<u8>, at: int, n: int) -> Result<Seq<u8>, Seq<char>> {
    let new_length = length_for_value(r, at, n);
    if attr_io::non_resident_at(r, at) {
        Err("attribute is non-resident"@)
    } else if new_length == length_at(r, at) {
        Ok(bytes::patch(r, at + attr_off::RESIDENT_VALUE_LENGTH, bytes::bytes32(n)))
    } else if too_long(r, at, new_length) {
        Err(
            "growing attribute by "@ + text::dec((new_length - length_at(r, at)) as nat)
                + " bytes exceeds record capacity (bytes_used="@ + text::dec(used(r) as nat)
                + " + diff > bytes_allocated="@ + text::dec(allocated(r) as nat) + ")"@,
        )
    } else {
        Ok(
            bytes::patch(
                bytes::patch(
                    with_length(r, at, new_length),
                    at + attr_off::LENGTH,
                    bytes::bytes32(new_length),
                ),
                at + attr_off::RESIDENT_VALUE_LENGTH,
                bytes::bytes32(n),
            ),
        )
    }
}

/// A fallible change of a buffer did what `want` says: gave the buffer, or
/// left it alone and said why.
pub open spec fn changed(
    before: Seq<u8>,
    after: Seq<u8>,
    got: Result<(), String>,
    want: Result<Seq<u8>, Seq<char>>,
) -> bool {
    match (got, want) {
        (Ok(_), Ok(r)) => after == r,
        (Err(m), Err(w)) => m@ == w && after == before,
        _ => false,
    }
}

/// Moves the bytes behind the attribute at `at` so that it is `new_length`
/// bytes long.
fn set_length(record: &mut [u8], at: usize, old_length: usize, new_length: usize)
    requires
        REC_OFF_BYTES_ALLOCATED + 4 <= old(record).len(),
        old_length == length_at(old(record)@, at as int),
        can_move(old(record)@, at as int, new_length as int),
        !too_long(old(record)@, at as int, new_length as int),
        at + attr_off::LENGTH + 4 <= old(record).len(),
    ensures
        final(record)@ == with_length(old(record)@, at as int, new_length as int),
{
    let size: usize = record.len();
    let in_use: usize = get_u32(record, REC_OFF_BYTES_USED) as usize;
    let from: usize = at + old_length;
    let ghost r = record@;
    if new_length > old_length {
        let to: usize = from + (new_length - old_length);
        move_bytes(record, from, in_use, to);
        fill_bytes(record, from, to, 0);
        assert(record@ =~= shifted(r, from as int, in_use as int, at + new_length));
        let now: usize = in_use + (new_length - old_length);
        put_u32(record, REC_OFF_BYTES_USED, now as u32);
    } else {
        let to: usize = from - (old_length - new_length);
        move_bytes(record, from, in_use, to);
        let now: usize = in_use - (old_length - new_length);
        fill_bytes(record, now, in_use, 0);
        assert(record@ =~= shifted(r, from as int, in_use as int, at + new_length));
        put_u32(record, REC_OFF_BYTES_USED, now as u32);
    }
}

/// Makes the value of the resident attribute at `attr_offset` `new_value_length`
/// bytes long. The bytes of the value that remain are left as they were, and
/// new ones are zero.
pub fn resize_resident_value(
    record: &mut [u8],
    attr_offset: usize,
    new_value_length: u32,
) -> (res: Result<(), String>)
    requires
        resize_defined(old(record)@, attr_offset as int, new_value_length as int),
    ensures
        changed(
            old(record)@,
            final(record)@,
            res,
            resized(old(record)@, attr_offset as int, new_value_length as int),
        ),
{
    let size: usize = record.len();
    if record[attr_offset + attr_off::NON_RESIDENT] != 0 {
        return Err("attribute is non-resident".to_owned());
    }
    let old_length: usize = get_u32(record, attr_offset + attr_off::LENGTH) as usize;
    let value_offset: u16 = get_u16(record, attr_offset + attr_off::RESIDENT_VALUE_OFFSET);
    let new_length: u64 = (value_offset as u64 + new_value_length as u64 + 7) / 8 * 8;
    if new_length == old_length as u64 {
        put_u32(record, attr_offset + attr_off::RESIDENT_VALUE_LENGTH, new_value_length);
        return Ok(());
    }
    let in_use: u32 = get_u32(record, REC_OFF_BYTES_USED);
    let room: u32 = get_u32(record, REC_OFF_BYTES_ALLOCATED);
    if new_length > old_length as u64 {
        let diff: u64 = new_length - old_length as u64;
        if in_use as u64 + diff > room as u64 {
            return Err(
                "growing attribute by ".to_owned().concat(decimal(diff).as_str()).concat(
                    " bytes exceeds record capacity (bytes_used=",
                ).concat(decimal(in_use as u64).as_str()).concat(
                    " + diff > bytes_allocated=",
                ).concat(decimal(room as u64).as_str()).concat(")"),
            );
        }
    }
    set_length(record, attr_offset, old_length, new_length as usize);
    put_u32(record, attr_offset + attr_off::LENGTH, new_length as u32);
    put_u32(record, attr_offset + attr_off::RESIDENT_VALUE_LENGTH, new_value_length);
    Ok(())
}

/// Makes `new_value` the value of the resident attribute at `attr_offset`.
pub open spec fn value_set(r: Seq<u8>, at: int, v: Seq<u8>) -> Result<Seq<u8>, Seq<char>> {
    match resized(r, at, v.len() as int) {
        Ok(s) => Ok(
            bytes::patch(s, at + bytes::le16(s, at + attr_off::RESIDENT_VALUE_OFFSET), v),
        ),
        Err(m) => Err(m),
    }
}

/// Resizes the attribute at `attr_offset` to hold `new_value` and copies the
/// bytes in.
pub fn set_resident_value(record: &mut [u8], attr_offset: usize, new_value: &[u8]) -> (res: Result<
    (),
    String,
>)
    requires
        new_value.len() <= u32::MAX,
        resize_defined(old(record)@, attr_offset as int, new_value@.len() as int),
        resized(old(record)@, attr_offset as int, new_value@.len() as int) matches Ok(s)
            ==> attr_offset + bytes::le16(s, attr_offset + attr_off::RESIDENT_VALUE_OFFSET)
            + new_value@.len() <= s.len(),
    ensures
        changed(
            old(record)@,
            final(record)@,
            res,
            value_set(old(record)@, attr_offset as int, new_value@),
        ),
{
    match resize_resident_value(record, attr_offset, new_value.len() as u32) {
        Err(m) => Err(m),
        Ok(_) => {
            let size: usize = record.len();
            let value_offset: usize = get_u16(
                record,
                attr_offset + attr_off::RESIDENT_VALUE_OFFSET,
            ) as usize;
            write_bytes(record, attr_offset + value_offset, new_value);
            Ok(())
        },
    }
}

/// `a` is not a whole number of 8-byte units, or nothing at all.
pub open spec fn misaligned(a: Seq<u8>) -> bool {
    a.len() == 0 || a.len() % 8 != 0
}

/// The inputs on which `replace_attribute` is defined.
pub open spec fn replace_defined(r: Seq<u8>, at: int, a: Seq<u8>) -> bool {
    !misaligned(a) && bytes::le32(a, attr_off::LENGTH as int) == a.len() ==> {
        &&& at + attr_off::LENGTH + 4 <= r.len()
        &&& REC_OFF_BYTES_ALLOCATED + 4 <= r.len()
        &&& length_at(r, at) == a.len() ==> at + a.len() <= r.len()
        &&& length_at(r, at) != a.len() ==> too_long(r, at, a.len() as int) || can_move(
            r,
            at,
            a.len() as int,
        )
    }
}

/// The record after the attribute at `at` gave way to `a`, or the reason why
/// it cannot.
pub open spec fn replaced(r: Seq<u8>, at: int, a: Seq<u8>) -> Result<Seq<u8>, Seq<char>> {
    let declared = bytes::le32(a, attr_off::LENGTH as int);
    if misaligned(a) {
        Err(
            "replace_attribute: new_attr length "@ + text::dec(a.len()) + " not 8-aligned non-zero"@,
        )
    } else if declared != a.len() {
        Err(
            "replace_attribute: header length "@ + text::dec(declared as nat)
                + " != buffer length "@ + text::dec(a.len()),
        )
    } else if length_at(r, at) == a.len() {
        Ok(bytes::patch(r, at, a))
    } else if too_long(r, at, a.len() as int) {
        Err(
            "replace_attribute: growing by "@ + text::dec((a.len() - length_at(r, at)) as nat)
                + " exceeds record capacity (bytes_used="@ + text::dec(used(r) as nat)
                + " bytes_allocated="@ + text::dec(allocated(r) as nat) + ")"@,
        )
    } else {
        Ok(bytes::patch(with_length(r, at, a.len() as int), at, a))
    }
}

/// Puts `new_attr` in the place of the attribute at `attr_offset`. Its own
/// length field must say how long it is, in whole 8-byte units.
pub fn replace_attribute(record: &mut [u8], attr_offset: usize, new_attr: &[u8]) -> (res: Result<
    (),
    String,
>)
    requires
        replace_defined(old(record)@, attr_offset as int, new_attr@),
    ensures
        changed(
            old(record)@,
            final(record)@,
            res,
            replaced(old(record)@, attr_offset as int, new_attr@),
        ),
{
    let size: usize = record.len();
    let new_length: usize = new_attr.len();
    if new_length == 0 || new_length % 8 != 0 {
        return Err(
            "replace_attribute: new_attr length ".to_owned().concat(
                decimal(new_length as u64).as_str(),
            ).concat(" not 8-aligned non-zero"),
        );
    }
    let declared: usize = get_u32(new_attr, attr_off::LENGTH) as usize;
    if declared != new_length {
        return Err(
            "replace_attribute: header length ".to_owned().concat(
                decimal(declared as u64).as_str(),
            ).concat(" != buffer length ").concat(decimal(new_length as u64).as_str()),
        );
    }
    let old_length: usize = get_u32(record, attr_offset + attr_off::LENGTH) as usize;
    let in_use: u32 = get_u32(record, REC_OFF_BYTES_USED);
    let room: u32 = get_u32(record, REC_OFF_BYTES_ALLOCATED);
    if new_length > old_length {
        let diff: usize = new_length - old_length;
        if in_use as u64 + diff as u64 > room as u64 {
            return Err(
                "replace_attribute: growing by ".to_owned().concat(
                    decimal(diff as u64).as_str(),
                ).concat(" exceeds record capacity (bytes_used=").concat(
                    decimal(in_use as u64).as_str(),
                ).concat(" bytes_allocated=").concat(decimal(room as u64).as_str()).concat(")"),
            );
        }
    }
    if new_length != old_length {
        set_length(record, attr_offset, old_length, new_length);
    }
    write_bytes(record, attr_offset, new_attr);
    Ok(())
}

/// Where the scan for a place stops: at the end of the bytes in use, and in
/// time to read the eight bytes that begin an attribute.
pub open spec fn scan_end(r: Seq<u8>) -> int {
    if used(r) <= r.len() - 4 {
        used(r)
    } else {
        r.len() - 4
    }
}

/// The place of the end marker that is reached from `at`, by the lengths of
/// the attributes between.
pub open spec fn marker_from(r: Seq<u8>, end: int, at: int) -> Option<int>
    decreases end - at,
{
    let code = bytes::le32(r, at + attr_off::TYPE);
    let length = length_at(r, at);
    if at + 4 > end || code == 0 {
        None
    } else if code == attr_io::END_MARKER {
        Some(at)
    } else if length <= 0 || at + length > end {
        None
    } else {
        marker_from(r, end, at + length)
    }
}

/// The place of the first attribute from `at` on whose type is above `code`,
/// or of the end marker.
pub open spec fn slot_from(r: Seq<u8>, end: int, at: int, code: int) -> int
    decreases end - at,
{
    let here = bytes::le32(r, at + attr_off::TYPE);
    let length = length_at(r, at);
    if at + 4 > end || here == attr_io::END_MARKER || here > code || length <= 0 || at + length
        > end {
        at
    } else {
        slot_from(r, end, at + length, code)
    }
}

/// The place of the record's end marker.
pub open spec fn marker(r: Seq<u8>) -> Option<int> {
    marker_from(r, scan_end(r), attr_io::attrs_start(r))
}

/// The place where an attribute of type `code` goes.
pub open spec fn slot(r: Seq<u8>, code: int) -> int {
    slot_from(r, scan_end(r), attr_io::attrs_start(r), code)
}

/// The inputs on which `insert_attribute_sorted` is defined.
pub open spec fn insert_defined(r: Seq<u8>, a: Seq<u8>) -> bool {
    !misaligned(a) && bytes::le32(a, attr_off::LENGTH as int) == a.len() ==> {
        &&& REC_OFF_BYTES_ALLOCATED + 4 <= r.len()
        &&& if used(r) + a.len() > allocated(r) {
            used(r) <= allocated(r)
        } else {
            marker(r) is Some ==> used(r) + a.len() <= r.len()
        }
    }
}

/// The record after `a` was put in its place by type, or the reason why it
/// cannot be.
pub open spec fn inserted(r: Seq<u8>, a: Seq<u8>) -> Result<Seq<u8>, Seq<char>> {
    let declared = bytes::le32(a, attr_off::LENGTH as int);
    if misaligned(a) {
        Err("insert_attribute: length "@ + text::dec(a.len()) + " not 8-aligned non-zero"@)
    } else if declared != a.len() {
        Err(
            "insert_attribute: header length "@ + text::dec(declared as nat)
                + " != buffer length "@ + text::dec(a.len()),
        )
    } else if used(r) + a.len() > allocated(r) {
        Err(
            "no room for new attribute: need "@ + text::dec(a.len()) + " more, have "@ + text::dec(
                (allocated(r) - used(r)) as nat,
            ),
        )
    } else if marker(r) is None {
        Err("no 0xFFFFFFFF end marker found before bytes_used "@ + text::dec(used(r) as nat))
    } else {
        Ok(with_inserted(r, slot(r, bytes::le32(a, attr_off::TYPE as int)), a))
    }
}

/// The place for an attribute of type `code`, and whether an end marker was
/// reached.
fn find_slot(record: &[u8], end: usize, start: usize, code: u32) -> (res: Option<usize>)
    requires
        end + 4 <= record.len(),
        start <= 0xFFFF,
    ensures
        match marker_from(record@, end as int, start as int) {
            Some(_) => res matches Some(p) && p <= end && p == slot_from(
                record@,
                end as int,
                start as int,
                code as int,
            ),
            None => res is None,
        },
{
    let mut at: usize = start;
    let mut place: Option<usize> = None;
    while at <= end && end - at >= 4
        invariant
            end + 4 <= record.len(),
            place matches Some(p) ==> p <= end && p == slot_from(
                record@,
                end as int,
                start as int,
                code as int,
            ),
            place is None ==> slot_from(record@, end as int, at as int, code as int) == slot_from(
                record@,
                end as int,
                start as int,
                code as int,
            ),
            marker_from(record@, end as int, at as int) == marker_from(
                record@,
                end as int,
                start as int,
            ),
        decreases end - at,
    {
        let here: u32 = get_u32(record, at + attr_off::TYPE);
        if here == attr_io::END_MARKER {
            return match place {
                Some(p) => Some(p),
                None => Some(at),
            };
        }
        if here == 0 {
            return None;
        }
        if place.is_none() && here > code {
            place = Some(at);
        }
        let length: usize = get_u32(record, at + attr_off::LENGTH) as usize;
        if length == 0 || length > end - at {
            return None;
        }
        at = at + length;
    }
    None
}

/// The place in the record for an attribute of type `code`, where the record
/// has an end marker.
fn place_for(record: &[u8], in_use: u32, code: u32) -> (res: Option<usize>)
    requires
        REC_OFF_BYTES_ALLOCATED + 4 <= record.len(),
        in_use == used(record@),
    ensures
        match res {
            Some(at) => marker(record@) is Some && at == slot(record@, code as int) && at <= in_use,
            None => marker(record@) is None,
        },
{
    let size: usize = record.len();
    let start: usize = get_u16(record, attr_io::REC_OFF_ATTRS_OFFSET) as usize;
    let end: usize = if in_use as usize <= size - 4 {
        in_use as usize
    } else {
        size - 4
    };
    find_slot(record, end, start, code)
}

/// The record with `a` put in at `at`.
pub open spec fn with_inserted(r: Seq<u8>, at: int, a: Seq<u8>) -> Seq<u8> {
    bytes::patch(
        bytes::patch(shifted(r, at, used(r), at + a.len()), at, a),
        REC_OFF_BYTES_USED as int,
        bytes::bytes32(used(r) + a.len()),
    )
}

fn insert_at(record: &mut [u8], at: usize, in_use: u32, a: &[u8])
    requires
        REC_OFF_BYTES_ALLOCATED + 4 <= old(record).len(),
        at <= in_use == used(old(record)@),
        in_use + a.len() <= old(record).len(),
        in_use + a.len() <= u32::MAX,
    ensures
        final(record)@ == with_inserted(old(record)@, at as int, a@),
{
    let size: usize = record.len();
    let n: usize = a.len();
    move_bytes(record, at, in_use as usize, at + n);
    fill_bytes(record, at, at + n, 0);
    assert(record@ =~= shifted(old(record)@, at as int, in_use as int, at + n));
    write_bytes(record, at, a);
    put_u32(record, REC_OFF_BYTES_USED, in_use + n as u32);
}

/// Puts a new attribute into the record, behind those whose type is not above
/// its own and before the rest, so that attributes sorted by type stay sorted.
pub fn insert_attribute_sorted(record: &mut [u8], new_attr: &[u8]) -> (res: Result<(), String>)
    requires
        insert_defined(old(record)@, new_attr@),
    ensures
        changed(old(record)@, final(record)@, res, inserted(old(record)@, new_attr@)),
{
    let size: usize = record.len();
    let new_len: usize = new_attr.len();
    if new_len == 0 || new_len % 8 != 0 {
        return Err(
            "insert_attribute: length ".to_owned().concat(decimal(new_len as u64).as_str()).concat(
                " not 8-aligned non-zero",
            ),
        );
    }
    let declared: usize = get_u32(new_attr, attr_off::LENGTH) as usize;
    if declared != new_len {
        return Err(
            "insert_attribute: header length ".to_owned().concat(
                decimal(declared as u64).as_str(),
            ).concat(" != buffer length ").concat(decimal(new_len as u64).as_str()),
        );
    }
    let in_use: u32 = get_u32(record, REC_OFF_BYTES_USED);
    let room: u32 = get_u32(record, REC_OFF_BYTES_ALLOCATED);
    if in_use as u64 + new_len as u64 > room as u64 {
        return Err(
            "no room for new attribute: need ".to_owned().concat(
                decimal(new_len as u64).as_str(),
            ).concat(" more, have ").concat(decimal((room - in_use) as u64).as_str()),
        );
    }
    let new_type: u32 = get_u32(new_attr, attr_off::TYPE);
    let at: usize = match place_for(record, in_use, new_type) {
        Some(at) => at,
        None => {
            return Err(
                "no 0xFFFFFFFF end marker found before bytes_used ".to_owned().concat(
                    decimal(in_use as u64).as_str(),
                ),
            );
        },
    };
    insert_at(record, at, in_use, new_attr);
    Ok(())
}

/// Takes the next attribute id from the record's header, and counts it up.
pub fn allocate_attribute_id(record: &mut [u8]) -> (id: u16)
    requires
        REC_OFF_NEXT_ATTR_ID + 2 <= old(record).len(),
    ensures
        id == bytes::le16(old(record)@, REC_OFF_NEXT_ATTR_ID as int),
        final(record)@ == bytes::patch(
            old(record)@,
            REC_OFF_NEXT_ATTR_ID as int,
            bytes::bytes16((id + 1) % 0x1_0000),
        ),
{
    let cur: u16 = get_u16(record, REC_OFF_NEXT_ATTR_ID);
    put_u16(record, REC_OFF_NEXT_ATTR_ID, cur.wrapping_add(1));
    cur
}

/// One attribute of `r` gave way to another in `s`, which has its bytes before
/// and behind it: every other attribute is as it was.
proof fn lemma_one_changed(r: Seq<u8>, s: Seq<u8>, at: int)
    requires
        s.len() == r.len(),
        r.len() <= usize::MAX,
        REC_OFF_BYTES_ALLOCATED + 4 <= attr_io::attrs_start(r),
        attr_io::attrs_start(s) == attr_io::attrs_start(r),
        used(r) <= r.len(),
        used(s) == used(r) + length_at(s, at) - length_at(r, at),
        attr_io::reaches(r, used(r), attr_io::attrs_start(r), at),
        attr_io::attribute_at(r, used(r), at),
        attr_io::attribute_at(s, used(s), at),
        forall|i: int| attr_io::attrs_start(r) <= i < at ==> #[trigger] s[i] == r[i],
        forall|i: int|
            at + length_at(s, at) <= i < used(s) ==> #[trigger] s[i] == r[i - length_at(s, at)
                + length_at(r, at)],
    ensures
        attr_io::attributes(s) == attr_io::attributes_between(
            r,
            used(r),
            attr_io::attrs_start(r),
            at,
        ) + (seq![attr_io::location_at(s, at)] + attr_io::all_moved(
            attr_io::attributes_from(r, used(r), at + length_at(r, at)),
            length_at(s, at) - length_at(r, at),
        )),
{
    let start = attr_io::attrs_start(r);
    attr_io::lemma_reaches_forward(r, used(r), start, at);
    attr_io::lemma_same_before(r, used(r), s, used(s), start, at);
    attr_io::lemma_walk_moved(
        r,
        used(r),
        s,
        used(s),
        at + length_at(r, at),
        at + length_at(s, at),
    );
}

/// `now` is `was` with entry `i` replaced by `loc`, and what follows it moved
/// by `d` bytes.
pub open spec fn one_entry_changed(
    was: Seq<attr_io::AttrLocation>,
    now: Seq<attr_io::AttrLocation>,
    i: int,
    loc: attr_io::AttrLocation,
    d: int,
) -> bool {
    &&& now.len() == was.len()
    &&& forall|j: int| 0 <= j < i ==> #[trigger] now[j] == was[j]
    &&& now[i] == loc
    &&& forall|j: int| i < j < was.len() ==> #[trigger] now[j] == attr_io::moved(was[j], d)
}

proof fn lemma_entry_changed(r: Seq<u8>, s: Seq<u8>, i: int)
    requires
        r.len() <= usize::MAX,
        0 <= i < attr_io::attributes(r).len(),
        attr_io::bytes_in_use(r) == used(r),
        ({
            let at = attr_io::attributes(r)[i].attr_offset as int;
            attr_io::attributes(s) == attr_io::attributes_between(
                r,
                used(r),
                attr_io::attrs_start(r),
                at,
            ) + (seq![attr_io::location_at(s, at)] + attr_io::all_moved(
                attr_io::attributes_from(r, used(r), at + length_at(r, at)),
                length_at(s, at) - length_at(r, at),
            ))
        }),
    ensures
        ({
            let at = attr_io::attributes(r)[i].attr_offset as int;
            one_entry_changed(
                attr_io::attributes(r),
                attr_io::attributes(s),
                i,
                attr_io::location_at(s, at),
                length_at(s, at) - length_at(r, at),
            )
        }),
{
    let was = attr_io::attributes(r);
    let at = was[i].attr_offset as int;
    attr_io::lemma_walk_comes_to(r, used(r), attr_io::attrs_start(r), i);
    lemma_entry_of_parts(
        was,
        attr_io::attributes(s),
        i,
        attr_io::location_at(s, at),
        attr_io::attributes_from(r, used(r), at + length_at(r, at)),
        length_at(s, at) - length_at(r, at),
    );
}

proof fn lemma_entry_of_parts(
    was: Seq<attr_io::AttrLocation>,
    now: Seq<attr_io::AttrLocation>,
    i: int,
    x: attr_io::AttrLocation,
    rest: Seq<attr_io::AttrLocation>,
    d: int,
)
    requires
        0 <= i < was.len(),
        was.skip(i) == seq![was[i]] + rest,
        now == was.take(i) + (seq![x] + attr_io::all_moved(rest, d)),
    ensures
        one_entry_changed(was, now, i, x, d),
{
    assert(was.skip(i).len() == 1 + rest.len());
    assert forall|j: int| i < j < was.len() implies #[trigger] now[j] == attr_io::moved(
        was[j],
        d,
    ) by {
        assert(was.skip(i)[j - i] == was[j]);
        assert((seq![was[i]] + rest)[j - i] == rest[j - i - 1]);
        assert(now[j] == attr_io::all_moved(rest, d)[j - i - 1]);
    }
}

/// What a resize leaves where, byte by byte.
pub(crate) proof fn lemma_resized_bytes(r: Seq<u8>, at: int, n: int)
    requires
        REC_OFF_BYTES_ALLOCATED + 4 <= at,
        0 <= n <= u32::MAX,
        attr_io::attribute_at(r, used(r), at),
        !attr_io::non_resident_at(r, at),
        resize_defined(r, at, n),
        resized(r, at, n) is Ok,
    ensures
        ({
            let s = resized(r, at, n)->Ok_0;
            let old_length = length_at(r, at);
            let new_length = length_for_value(r, at, n);
            &&& s.len() == r.len()
            &&& used(s) == used(r) + new_length - old_length <= s.len()
            &&& length_at(s, at) == new_length
            &&& bytes::le32(s, at + attr_off::RESIDENT_VALUE_LENGTH) == n
            &&& forall|k: int|
                0 <= k < at && !(REC_OFF_BYTES_USED <= k < REC_OFF_BYTES_USED + 4)
                    ==> #[trigger] s[k] == r[k]
            &&& forall|k: int|
                at <= k < at + old_length && k < at + new_length && !(at + attr_off::LENGTH <= k
                    < at + attr_off::LENGTH + 4) && !(at + attr_off::RESIDENT_VALUE_LENGTH <= k < at
                    + attr_off::RESIDENT_VALUE_LENGTH + 4) ==> #[trigger] s[k] == r[k]
            &&& forall|k: int|
                at + new_length <= k < used(s) ==> #[trigger] s[k] == r[k - new_length + old_length]
        }),
{
    let s = resized(r, at, n)->Ok_0;
    let new_length = length_for_value(r, at, n);
    let old_length = length_at(r, at);
    assert(new_length >= 0x18);
    if new_length == old_length {
        bytes::lemma_le32_of_patch(r, at + attr_off::RESIDENT_VALUE_LENGTH, n);
        lemma_patch_misses32(
            r,
            at + attr_off::RESIDENT_VALUE_LENGTH,
            bytes::bytes32(n),
            REC_OFF_BYTES_USED as int,
        );
    } else {
        let now = used(r) + new_length - old_length;
        assert(now <= u32::MAX);
        let a = shifted(r, at + old_length, used(r), at + new_length);
        lemma_patched_thrice(a, at, now, new_length, n);
        assert(a.len() == r.len());
        assert(used(s) == now);
        assert forall|k: int|
            at + new_length <= k < used(s) implies #[trigger] s[k] == r[k - new_length + old_length] by {
            assert(s[k] == a[k]);
        }
        assert forall|k: int|
            0 <= k < at && !(REC_OFF_BYTES_USED <= k < REC_OFF_BYTES_USED + 4) implies #[trigger] s[k]
            == r[k] by {
            assert(s[k] == a[k]);
        }
    }
}

/// Three fields written one after the other: what each reads, and what none of
/// them touches.
pub(crate) proof fn lemma_patched_thrice(a: Seq<u8>, at: int, now: int, new_length: int, n: int)
    requires
        REC_OFF_BYTES_ALLOCATED + 4 <= at,
        at + 0x18 <= a.len(),
        0 <= now <= u32::MAX,
        0 <= new_length <= u32::MAX,
        0 <= n <= u32::MAX,
    ensures
        ({
            let b = bytes::patch(a, REC_OFF_BYTES_USED as int, bytes::bytes32(now));
            let c = bytes::patch(b, at + attr_off::LENGTH, bytes::bytes32(new_length));
            let s = bytes::patch(c, at + attr_off::RESIDENT_VALUE_LENGTH, bytes::bytes32(n));
            &&& s.len() == a.len()
            &&& used(s) == now
            &&& length_at(s, at) == new_length
            &&& bytes::le32(s, at + attr_off::RESIDENT_VALUE_LENGTH) == n
            &&& forall|k: int|
                0 <= k < a.len() && !(REC_OFF_BYTES_USED <= k < REC_OFF_BYTES_USED + 4) && !(at
                    + attr_off::LENGTH <= k < at + attr_off::LENGTH + 4) && !(at
                    + attr_off::RESIDENT_VALUE_LENGTH <= k < at + attr_off::RESIDENT_VALUE_LENGTH
                    + 4) ==> #[trigger] s[k] == a[k]
        }),
{
    let x = bytes::bytes32(now);
    let y = bytes::bytes32(new_length);
    let z = bytes::bytes32(n);
    let b = bytes::patch(a, REC_OFF_BYTES_USED as int, x);
    let c = bytes::patch(b, at + attr_off::LENGTH, y);
    let s = bytes::patch(c, at + attr_off::RESIDENT_VALUE_LENGTH, z);
    assert(x.len() == 4 && y.len() == 4 && z.len() == 4);
    bytes::lemma_le32_of_patch(a, REC_OFF_BYTES_USED as int, now);
    bytes::lemma_le32_of_patch(b, at + attr_off::LENGTH, new_length);
    bytes::lemma_le32_of_patch(c, at + attr_off::RESIDENT_VALUE_LENGTH, n);
    lemma_patch_misses32(b, at + attr_off::LENGTH, y, REC_OFF_BYTES_USED as int);
    lemma_patch_misses32(c, at + attr_off::RESIDENT_VALUE_LENGTH, z, REC_OFF_BYTES_USED as int);
    lemma_patch_misses32(c, at + attr_off::RESIDENT_VALUE_LENGTH, z, at + attr_off::LENGTH);
}

#[verifier::rlimit(30)]
proof fn lemma_resized_header(r: Seq<u8>, s: Seq<u8>, at: int, n: u32, new_length: int)
    requires
        s.len() == r.len() <= usize::MAX,
        REC_OFF_BYTES_ALLOCATED + 4 <= attr_io::attrs_start(r) <= at,
        attr_io::attribute_at(r, used(r), at),
        !attr_io::non_resident_at(r, at),
        attr_io::location_at(r, at).name_length != 0 ==> attr_io::location_at(r, at).name_offset + 2
            * attr_io::location_at(r, at).name_length <= bytes::le16(
            r,
            at + attr_off::RESIDENT_VALUE_OFFSET,
        ),
        new_length == length_for_value(r, at, n as int),
        at + new_length <= used(s) <= s.len(),
        length_at(s, at) == new_length,
        bytes::le32(s, at + attr_off::RESIDENT_VALUE_LENGTH) == n,
        forall|k: int|
            0 <= k < at && !(REC_OFF_BYTES_USED <= k < REC_OFF_BYTES_USED + 4) ==> #[trigger] s[k]
                == r[k],
        forall|k: int|
            at <= k < at + length_at(r, at) && k < at + new_length && !(at + attr_off::LENGTH <= k
                < at + attr_off::LENGTH + 4) && !(at + attr_off::RESIDENT_VALUE_LENGTH <= k < at
                + attr_off::RESIDENT_VALUE_LENGTH + 4) ==> #[trigger] s[k] == r[k],
    ensures
        attr_io::attrs_start(s) == attr_io::attrs_start(r),
        attr_io::attribute_at(s, used(s), at),
        attr_io::location_at(s, at) == (attr_io::AttrLocation {
            attr_length: new_length as usize,
            resident_value_length: Some(n),
            ..attr_io::location_at(r, at)
        }),
{
    assert(new_length >= 0x18);
    assert(bytes::le32(s, at + attr_off::TYPE) == bytes::le32(r, at + attr_off::TYPE));
    assert(bytes::le16(s, at + attr_off::NAME_OFFSET) == bytes::le16(
        r,
        at + attr_off::NAME_OFFSET,
    ));
    assert(bytes::le16(s, at + attr_off::ATTRIBUTE_ID) == bytes::le16(
        r,
        at + attr_off::ATTRIBUTE_ID,
    ));
    assert(bytes::le16(s, at + attr_off::RESIDENT_VALUE_OFFSET) == bytes::le16(
        r,
        at + attr_off::RESIDENT_VALUE_OFFSET,
    ));
}

/// A field that a patch does not touch reads as before.
proof fn lemma_patch_misses32(s: Seq<u8>, at: int, b: Seq<u8>, field: int)
    requires
        0 <= field,
        field + 4 <= s.len(),
        field + 4 <= at || at + b.len() <= field,
    ensures
        bytes::le32(bytes::patch(s, at, b), field) == bytes::le32(s, field),
{
}

/// The attribute `i` of `r` is resident, has its name, if any, before its
/// value, and none of the record's attributes reaches into its header fields.
pub open spec fn resizable(r: Seq<u8>, i: int) -> bool {
    let loc = attr_io::attributes(r)[i];
    &&& 0 <= i < attr_io::attributes(r).len()
    &&& loc.is_resident
    &&& loc.name_length != 0 ==> loc.name_offset + 2 * loc.name_length
        <= loc.resident_value_offset->Some_0
    &&& REC_OFF_BYTES_ALLOCATED + 4 <= attr_io::attrs_start(r)
    &&& used(r) <= r.len() <= usize::MAX
}

/// A resized attribute is the same attribute with a value of the new length;
/// the bytes of its value that remain are the same; and every other attribute
/// of the record is as it was, those behind it moved by the change in length.
pub proof fn lemma_resize_keeps_the_rest(r: Seq<u8>, i: int, n: u32)
    requires
        resizable(r, i),
        resize_defined(r, attr_io::attributes(r)[i].attr_offset as int, n as int),
        resized(r, attr_io::attributes(r)[i].attr_offset as int, n as int) is Ok,
    ensures
        ({
            let loc = attr_io::attributes(r)[i];
            let s = resized(r, loc.attr_offset as int, n as int)->Ok_0;
            let new_length = length_for_value(r, loc.attr_offset as int, n as int);
            let first = loc.attr_offset + loc.resident_value_offset->Some_0;
            &&& s.len() == r.len()
            &&& one_entry_changed(
                attr_io::attributes(r),
                attr_io::attributes(s),
                i,
                (attr_io::AttrLocation {
                    attr_length: new_length as usize,
                    resident_value_length: Some(n),
                    ..loc
                }),
                new_length - loc.attr_length,
            )
            &&& forall|k: int|
                first <= k < first + n && k < first + loc.resident_value_length->Some_0
                    ==> #[trigger] s[k] == r[k]
        }),
{
    let loc = attr_io::attributes(r)[i];
    let at = loc.attr_offset as int;
    let start = attr_io::attrs_start(r);
    let s = resized(r, at, n as int)->Ok_0;
    let new_length = length_for_value(r, at, n as int);
    let old_length = length_at(r, at);
    attr_io::lemma_walk_comes_to(r, used(r), start, i);
    attr_io::lemma_reaches_forward(r, used(r), start, at);
    attr_io::lemma_attributes_are_within(r);
    lemma_resized_bytes(r, at, n as int);
    lemma_resized_header(r, s, at, n, new_length);
    lemma_one_changed(r, s, at);
    lemma_entry_changed(r, s, i);
}

/// The attributes stand in the order of their types.
pub open spec fn sorted_by_type(locs: Seq<attr_io::AttrLocation>) -> bool {
    forall|i: int, j: int|
        0 <= i < j < locs.len() ==> #[trigger] locs[i].type_code <= #[trigger] locs[j].type_code
}

/// Every attribute of `r`, up to an end marker, is one that the walk yields.
pub open spec fn walks_to_marker(r: Seq<u8>) -> bool {
    &&& REC_OFF_BYTES_ALLOCATED + 4 <= attr_io::attrs_start(r)
    &&& used(r) <= r.len() <= usize::MAX
    &&& marker(r) matches Some(m) && attr_io::reaches(r, used(r), attr_io::attrs_start(r), m)
}

proof fn lemma_slot_splits(r: Seq<u8>, end: int, at: int, m: int, code: int)
    requires
        0 <= at,
        attr_io::reaches(r, used(r), at, m),
        m + 4 <= end <= used(r) <= r.len() <= usize::MAX,
        bytes::le32(r, m) == attr_io::END_MARKER,
    ensures
        ({
            let q = slot_from(r, end, at, code);
            &&& at <= q <= m
            &&& attr_io::reaches(r, used(r), at, q)
            &&& q == m || bytes::le32(r, q + attr_off::TYPE) > code
            &&& forall|i: int|
                0 <= i < attr_io::attributes_between(r, used(r), at, q).len()
                    ==> #[trigger] attr_io::attributes_between(r, used(r), at, q)[i].type_code
                    <= code
        }),
    decreases used(r) - at,
{
    let q = slot_from(r, end, at, code);
    if at == m {
        assert(q == m);
    } else {
        let length = length_at(r, at);
        attr_io::lemma_reaches_forward(r, used(r), at + length, m);
        if bytes::le32(r, at + attr_off::TYPE) > code {
            assert(q == at);
        } else {
            lemma_slot_splits(r, end, at + length, m, code);
            let rest = attr_io::attributes_between(r, used(r), at + length, q);
            let all = attr_io::attributes_between(r, used(r), at, q);
            assert(all == seq![attr_io::location_at(r, at)] + rest);
            assert forall|i: int| 0 <= i < all.len() implies #[trigger] all[i].type_code <= code by {
                if i > 0 {
                    assert(all[i] == rest[i - 1]);
                }
            }
        }
    }
}

proof fn lemma_marker_is_marker(r: Seq<u8>, end: int, at: int)
    ensures
        marker_from(r, end, at) matches Some(m) ==> at <= m && m + 4 <= end && bytes::le32(
            r,
            m + attr_off::TYPE,
        ) == attr_io::END_MARKER,
    decreases end - at,
{
    let length = length_at(r, at);
    if at + 4 <= end && bytes::le32(r, at + attr_off::TYPE) != attr_io::END_MARKER && length > 0
        && at + length <= end {
        lemma_marker_is_marker(r, end, at + length);
    }
}

/// What an insertion leaves where, byte by byte.
proof fn lemma_inserted_bytes(r: Seq<u8>, at: int, a: Seq<u8>)
    requires
        REC_OFF_BYTES_ALLOCATED + 4 <= at <= used(r),
        used(r) + a.len() <= r.len(),
        used(r) + a.len() <= u32::MAX,
    ensures
        ({
            let s = with_inserted(r, at, a);
            &&& s.len() == r.len()
            &&& used(s) == used(r) + a.len()
            &&& forall|k: int|
                0 <= k < at && !(REC_OFF_BYTES_USED <= k < REC_OFF_BYTES_USED + 4)
                    ==> #[trigger] s[k] == r[k]
            &&& forall|k: int| at <= k < at + a.len() ==> #[trigger] s[k] == a[k - at]
            &&& forall|k: int| at + a.len() <= k < used(s) ==> #[trigger] s[k] == r[k - a.len()]
        }),
{
    let b = bytes::patch(shifted(r, at, used(r), at + a.len()), at, a);
    let s = with_inserted(r, at, a);
    let now = bytes::bytes32(used(r) + a.len());
    assert(now.len() == 4);
    bytes::lemma_le32_of_patch(b, REC_OFF_BYTES_USED as int, used(r) + a.len());
    assert forall|k: int| at <= k < r.len() implies #[trigger] s[k] == b[k] by {}
}

proof fn lemma_insert_walk(r: Seq<u8>, s: Seq<u8>, at: int, a: Seq<u8>)
    requires
        REC_OFF_BYTES_ALLOCATED + 4 <= attr_io::attrs_start(r) <= at <= used(r),
        s.len() == r.len() <= usize::MAX,
        used(s) == used(r) + a.len() <= s.len(),
        attr_io::attribute_at(a, a.len() as int, 0),
        length_at(a, 0) == a.len(),
        attr_io::reaches(r, used(r), attr_io::attrs_start(r), at),
        forall|k: int|
            0 <= k < at && !(REC_OFF_BYTES_USED <= k < REC_OFF_BYTES_USED + 4) ==> #[trigger] s[k]
                == r[k],
        forall|k: int| at <= k < at + a.len() ==> #[trigger] s[k] == a[k - at],
        forall|k: int| at + a.len() <= k < used(s) ==> #[trigger] s[k] == r[k - a.len()],
    ensures
        attr_io::attributes(s) == attr_io::attributes_between(
            r,
            used(r),
            attr_io::attrs_start(r),
            at,
        ) + (seq![attr_io::moved(attr_io::location_at(a, 0), at)] + attr_io::all_moved(
            attr_io::attributes_from(r, used(r), at),
            a.len() as int,
        )),
{
    let start = attr_io::attrs_start(r);
    assert(attr_io::attrs_start(s) == start);
    attr_io::lemma_same_before(r, used(r), s, used(s), start, at);
    attr_io::lemma_same_header(a, a.len() as int, s, used(s), 0, at);
    attr_io::lemma_walk_moved(r, used(r), s, used(s), at, at + a.len());
}

/// An inserted attribute stands behind every attribute whose type is not above
/// its own and before every other; the others are all still there, in their
/// order, those behind it moved by its length. Attributes that were sorted by
/// type are so afterwards.
pub proof fn lemma_insert_keeps_order(r: Seq<u8>, a: Seq<u8>)
    requires
        walks_to_marker(r),
        attr_io::attribute_at(a, a.len() as int, 0),
        insert_defined(r, a),
        inserted(r, a) is Ok,
    ensures
        ({
            let s = inserted(r, a)->Ok_0;
            let code = bytes::le32(a, attr_off::TYPE as int);
            let at = slot(r, code);
            let before = attr_io::attributes_between(r, used(r), attr_io::attrs_start(r), at);
            let behind = attr_io::attributes_from(r, used(r), at);
            let new = attr_io::moved(attr_io::location_at(a, 0), at);
            &&& attr_io::attributes(r) == before + behind
            &&& attr_io::attributes(s) == before + (seq![new] + attr_io::all_moved(
                behind,
                a.len() as int,
            ))
            &&& forall|i: int| 0 <= i < before.len() ==> #[trigger] before[i].type_code <= code
            &&& behind.len() > 0 ==> behind[0].type_code > code
            &&& sorted_by_type(attr_io::attributes(r)) ==> sorted_by_type(attr_io::attributes(s))
        }),
{
    let s = inserted(r, a)->Ok_0;
    let code = bytes::le32(a, attr_off::TYPE as int);
    let start = attr_io::attrs_start(r);
    let m = marker(r)->Some_0;
    let at = slot(r, code);
    lemma_marker_is_marker(r, scan_end(r), start);
    lemma_slot_splits(r, scan_end(r), start, m, code);
    lemma_inserted_bytes(r, at, a);
    let before = attr_io::attributes_between(r, used(r), start, at);
    let behind = attr_io::attributes_from(r, used(r), at);
    let new = attr_io::moved(attr_io::location_at(a, 0), at);
    attr_io::lemma_same_before(r, used(r), r, used(r), start, at);
    lemma_insert_walk(r, s, at, a);
    if at == m {
        assert(!attr_io::attribute_at(r, used(r), at));
        assert(behind.len() == 0);
    }
    if sorted_by_type(attr_io::attributes(r)) {
        lemma_still_sorted(before, new, behind, a.len() as int);
    }
}

proof fn lemma_still_sorted(
    before: Seq<attr_io::AttrLocation>,
    new: attr_io::AttrLocation,
    behind: Seq<attr_io::AttrLocation>,
    d: int,
)
    requires
        sorted_by_type(before + behind),
        forall|i: int| 0 <= i < before.len() ==> #[trigger] before[i].type_code <= new.type_code,
        behind.len() > 0 ==> behind[0].type_code > new.type_code,
    ensures
        sorted_by_type(before + (seq![new] + attr_io::all_moved(behind, d))),
{
    let was = before + behind;
    let now = before + (seq![new] + attr_io::all_moved(behind, d));
    let n = before.len() as int;
    assert forall|i: int, j: int| 0 <= i < j < now.len() implies #[trigger] now[i].type_code
        <= #[trigger] now[j].type_code by {
        if j < n {
            assert(now[j] == was[j]);
        } else if j == n {
            assert(now[j] == new);
        } else {
            assert(now[j].type_code == was[j - 1].type_code);
            assert(was[n] == behind[0]);
            assert(was[n].type_code <= was[j - 1].type_code);
        }
        if i < n {
            assert(now[i] == was[i]);
            assert(was[i] == before[i]);
            assert(before[i].type_code <= new.type_code);
        } else if i == n {
            assert(now[i] == new);
        } else {
            assert(now[i].type_code == was[i - 1].type_code);
        }
    }
}

/// What a replacement leaves where, byte by byte.
proof fn lemma_replaced_bytes(r: Seq<u8>, at: int, a: Seq<u8>)
    requires
        REC_OFF_BYTES_ALLOCATED + 4 <= at,
        attr_io::attribute_at(r, used(r), at),
        replace_defined(r, at, a),
        replaced(r, at, a) is Ok,
    ensures
        ({
            let s = replaced(r, at, a)->Ok_0;
            &&& s.len() == r.len()
            &&& used(s) == used(r) + a.len() - length_at(r, at) <= s.len()
            &&& forall|k: int|
                0 <= k < at && !(REC_OFF_BYTES_USED <= k < REC_OFF_BYTES_USED + 4)
                    ==> #[trigger] s[k] == r[k]
            &&& forall|k: int| at <= k < at + a.len() ==> #[trigger] s[k] == a[k - at]
            &&& forall|k: int|
                at + a.len() <= k < used(s) ==> #[trigger] s[k] == r[k - a.len() + length_at(
                    r,
                    at,
                )]
        }),
{
    let s = replaced(r, at, a)->Ok_0;
    let old_length = length_at(r, at);
    if a.len() == old_length {
        assert(forall|k: int| 0 <= k < at ==> s[k] == r[k]);
        assert(used(s) == used(r));
    } else {
        let b = shifted(r, at + old_length, used(r), at + a.len());
        let c = with_length(r, at, a.len() as int);
        let now = used(r) + a.len() - old_length;
        assert(0 <= now <= u32::MAX);
        assert(bytes::bytes32(now).len() == 4);
        bytes::lemma_le32_of_patch(b, REC_OFF_BYTES_USED as int, now);
        assert(used(c) == now);
        lemma_patch_misses32(c, at, a, REC_OFF_BYTES_USED as int);
        assert forall|k: int| at <= k < r.len() implies #[trigger] c[k] == b[k] by {}
        assert forall|k: int|
            at + a.len() <= k < used(s) implies #[trigger] s[k] == r[k - a.len() + old_length] by {
            assert(s[k] == c[k]);
            assert(c[k] == b[k]);
        }
        assert forall|k: int|
            0 <= k < at && !(REC_OFF_BYTES_USED <= k < REC_OFF_BYTES_USED + 4) implies #[trigger] s[k]
            == r[k] by {
            assert(s[k] == c[k]);
            assert(c[k] == b[k]);
        }
    }
}

/// A replaced attribute is the new one, standing where the old one stood;
/// every other attribute is as it was, those behind it moved by the difference
/// in length.
pub proof fn lemma_replace_keeps_the_rest(r: Seq<u8>, i: int, a: Seq<u8>)
    requires
        0 <= i < attr_io::attributes(r).len(),
        REC_OFF_BYTES_ALLOCATED + 4 <= attr_io::attrs_start(r),
        used(r) <= r.len() <= usize::MAX,
        attr_io::attribute_at(a, a.len() as int, 0),
        replace_defined(r, attr_io::attributes(r)[i].attr_offset as int, a),
        replaced(r, attr_io::attributes(r)[i].attr_offset as int, a) is Ok,
    ensures
        ({
            let loc = attr_io::attributes(r)[i];
            let s = replaced(r, loc.attr_offset as int, a)->Ok_0;
            one_entry_changed(
                attr_io::attributes(r),
                attr_io::attributes(s),
                i,
                attr_io::moved(attr_io::location_at(a, 0), loc.attr_offset as int),
                a.len() - loc.attr_length,
            )
        }),
{
    let loc = attr_io::attributes(r)[i];
    let at = loc.attr_offset as int;
    let s = replaced(r, at, a)->Ok_0;
    attr_io::lemma_walk_comes_to(r, used(r), attr_io::attrs_start(r), i);
    attr_io::lemma_reaches_forward(r, used(r), attr_io::attrs_start(r), at);
    attr_io::lemma_attributes_are_within(r);
    lemma_replaced_bytes(r, at, a);
    attr_io::lemma_same_header(a, a.len() as int, s, used(s), 0, at);
    lemma_one_changed(r, s, at);
    lemma_entry_changed(r, s, i);
}

/// A value that was set is the attribute's value from then on, and every other
/// attribute of the record is as it was, those behind it moved by the change in
/// length.
#[verifier::rlimit(30)]
pub proof fn lemma_set_value_reads_back(r: Seq<u8>, i: int, v: Seq<u8>)
    requires
        resizable(r, i),
        v.len() <= u32::MAX,
        resize_defined(r, attr_io::attributes(r)[i].attr_offset as int, v.len() as int),
        value_set(r, attr_io::attributes(r)[i].attr_offset as int, v) is Ok,
    ensures
        ({
            let loc = attr_io::attributes(r)[i];
            let at = loc.attr_offset as int;
            let t = value_set(r, at, v)->Ok_0;
            let now = attr_io::attributes(t)[i];
            let first = now.attr_offset + now.resident_value_offset->Some_0;
            &&& one_entry_changed(
                attr_io::attributes(r),
                attr_io::attributes(t),
                i,
                (attr_io::AttrLocation {
                    attr_length: length_for_value(r, at, v.len() as int) as usize,
                    resident_value_length: Some(v.len() as u32),
                    ..loc
                }),
                length_for_value(r, at, v.len() as int) - loc.attr_length,
            )
            &&& t.subrange(first, first + v.len()) == v
        }),
{
    let loc = attr_io::attributes(r)[i];
    let at = loc.attr_offset as int;
    let start = attr_io::attrs_start(r);
    let s = resized(r, at, v.len() as int)->Ok_0;
    let t = value_set(r, at, v)->Ok_0;
    attr_io::lemma_walk_comes_to(r, used(r), start, i);
    attr_io::lemma_reaches_forward(r, used(r), start, at);
    attr_io::lemma_attributes_are_within(r);
    lemma_resize_keeps_the_rest(r, i, v.len() as u32);
    lemma_resized_bytes(r, at, v.len() as int);
    lemma_resized_header(r, s, at, v.len() as u32, length_for_value(r, at, v.len() as int));
    let vo = bytes::le16(s, at + attr_off::RESIDENT_VALUE_OFFSET);
    assert(vo == loc.resident_value_offset->Some_0);
    attr_io::lemma_walk_comes_to(s, used(s), start, i);
    lemma_value_change_keeps(s, t, i);
    assert(t.subrange(at + vo, at + vo + v.len()) =~= v);
}

/// `t` is `s` but for bytes inside the value of attribute `i`.
pub open spec fn differ_in_value(s: Seq<u8>, t: Seq<u8>, i: int) -> bool {
    let loc = attr_io::attributes(s)[i];
    let first = loc.attr_offset + loc.resident_value_offset->Some_0;
    &&& s.len() == t.len()
    &&& 0 <= i < attr_io::attributes(s).len()
    &&& loc.is_resident
    &&& forall|k: int|
        0 <= k < s.len() && !(first <= k < first + loc.resident_value_length->Some_0)
            ==> #[trigger] t[k] == s[k]
}

/// Writing inside a resident value changes no attribute.
pub proof fn lemma_value_change_keeps(s: Seq<u8>, t: Seq<u8>, i: int)
    requires
        s.len() <= usize::MAX,
        used(s) <= s.len(),
        REC_OFF_BYTES_ALLOCATED + 4 <= attr_io::attrs_start(s),
        differ_in_value(s, t, i),
    ensures
        attr_io::attributes(t) == attr_io::attributes(s),
{
    let start = attr_io::attrs_start(s);
    let was = attr_io::attributes(s);
    let at = was[i].attr_offset as int;
    attr_io::lemma_walk_comes_to(s, used(s), start, i);
    attr_io::lemma_reaches_forward(s, used(s), start, at);
    attr_io::lemma_attributes_are_within(s);
    assert(attr_io::attribute_at(s, used(s), at));
    assert(forall|k: int| 0 <= k < at + 0x18 ==> t[k] == s[k]);
    assert(used(t) == used(s));
    assert(attr_io::attrs_start(t) == start);
    assert(length_at(t, at) == length_at(s, at));
    lemma_value_patch_header(s, t, at);
    lemma_one_changed(s, t, at);
    lemma_entry_changed(s, t, i);
    let now = attr_io::attributes(t);
    assert forall|j: int| 0 <= j < was.len() implies #[trigger] now[j] == was[j] by {
        if j > i {
            assert(now[j] == attr_io::moved(was[j], 0));
        }
    }
    assert(now =~= was);
}

proof fn lemma_value_patch_header(s: Seq<u8>, t: Seq<u8>, at: int)
    requires
        s.len() == t.len() <= usize::MAX,
        0 <= at,
        attr_io::attribute_at(s, used(s), at),
        !attr_io::non_resident_at(s, at),
        used(t) == used(s),
        forall|k: int| 0 <= k < at + 0x18 ==> #[trigger] t[k] == s[k],
    ensures
        attr_io::attribute_at(t, used(t), at),
        attr_io::location_at(t, at) == attr_io::location_at(s, at),
{
    assert(bytes::le32(t, at + attr_off::TYPE) == bytes::le32(s, at + attr_off::TYPE));
    assert(bytes::le32(t, at + attr_off::LENGTH) == bytes::le32(s, at + attr_off::LENGTH));
    assert(bytes::le16(t, at + attr_off::NAME_OFFSET) == bytes::le16(
        s,
        at + attr_off::NAME_OFFSET,
    ));
    assert(bytes::le16(t, at + attr_off::ATTRIBUTE_ID) == bytes::le16(
        s,
        at + attr_off::ATTRIBUTE_ID,
    ));
    assert(bytes::le16(t, at + attr_off::RESIDENT_VALUE_OFFSET) == bytes::le16(
        s,
        at + attr_off::RESIDENT_VALUE_OFFSET,
    ));
    assert(bytes::le32(t, at + attr_off::RESIDENT_VALUE_LENGTH) == bytes::le32(
        s,
        at + attr_off::RESIDENT_VALUE_LENGTH,
    ));
}

} // verus!
