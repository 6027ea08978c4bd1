//! What stands in extended attributes, and what recovery does to a volume.

use vstd::prelude::*;

use crate::attr_io;
use crate::attr_io::AttrType;
use crate::bytes;
use crate::ea_io;
use crate::ea_io::{Ea, EaView};
use crate::fsck;
use crate::layout_laws;

verus! {

/// The bytes of the first `k` packed attributes.
pub open spec fn packed_length(eas: Seq<EaView>, k: int) -> int
    decreases k,
{
    if k <= 0 {
        0
    } else {
        packed_length(eas, k - 1) + ea_io::entry_size(
            eas[k - 1].name.len() as int,
            eas[k - 1].value.len() as int,
        )
    }
}

/// The place of an extended attribute is its header of 8 bytes, its name and a
/// zero, and its value, rounded up to a multiple of 4.
pub proof fn lemma_size_of_an_entry(name_len: int, value_len: int)
    requires
        0 <= name_len,
        0 <= value_len,
    ensures
        ea_io::entry_size(name_len, value_len) % 4 == 0,
        9 + name_len + value_len <= ea_io::entry_size(name_len, value_len) < 9 + name_len
            + value_len + 4,
{
}

/// The packed attribute `x` stands at `at`: how far on the next one is, the
/// flags, the length of the name, that of the value, the name, a zero, the value,
/// and zeros up to `size`.
pub open spec fn is_packed(b: Seq<u8>, at: int, x: EaView, next: int, size: int) -> bool {
    let n = x.name.len() as int;
    let v = x.value.len() as int;
    &&& 0 <= at
    &&& at + size <= b.len()
    &&& bytes::le32(b, at) == next
    &&& b[at + 4] == x.flags
    &&& b[at + 5] == n
    &&& bytes::le16(b, at + 6) == v
    &&& forall|k: int| 0 <= k < n ==> b[at + 8 + k] == #[trigger] x.name[k]
    &&& b[at + 8 + n] == 0
    &&& forall|k: int| 0 <= k < v ==> b[at + 9 + n + k] == #[trigger] x.value[k]
    &&& forall|k: int| at + 9 + n + v <= k < at + size ==> #[trigger] b[k] == 0
}

/// Attribute `j` of the list stands in `b` behind those from `i` on, and says how
/// long its place is, but for the last, which says 0.
pub open spec fn is_in_its_place(b: Seq<u8>, eas: Seq<EaView>, i: int, j: int) -> bool {
    let size = packed_length(eas, j + 1) - packed_length(eas, j);
    is_packed(
        b,
        packed_length(eas, j) - packed_length(eas, i),
        eas[j],
        if j == eas.len() - 1 {
            0
        } else {
            size
        },
        size,
    )
}

/// A list can be packed exactly where no name has more than 254 bytes and no
/// value more than 65535. Each attribute then stands behind those before it, and
/// says how long its place is, but for the last, which says 0.
pub proof fn lemma_packed_one_behind_the_other(eas: Seq<EaView>)
    ensures
        ea_io::encoded(eas) is Ok <==> forall|i: int|
            0 <= i < eas.len() ==> (#[trigger] eas[i]).name.len() <= 254 && eas[i].value.len()
                <= 65535,
        ea_io::encoded(eas) matches Ok(b) ==> {
            &&& b.len() == packed_length(eas, eas.len() as int)
            &&& forall|j: int| 0 <= j < eas.len() ==> #[trigger] is_in_its_place(b, eas, 0, j)
        },
{
    lemma_when_packed(eas, 0);
    if ea_io::encoded(eas) is Ok {
        lemma_packed_from(eas, 0);
    }
}

proof fn lemma_when_packed(eas: Seq<EaView>, i: int)
    requires
        0 <= i <= eas.len(),
    ensures
        ea_io::encoded_from(eas, i) is Ok <==> forall|j: int|
            i <= j < eas.len() ==> (#[trigger] eas[j]).name.len() <= 254 && eas[j].value.len()
                <= 65535,
    decreases eas.len() - i,
{
    if i < eas.len() {
        lemma_when_packed(eas, i + 1);
    }
}

proof fn lemma_packed_from(eas: Seq<EaView>, i: int)
    requires
        0 <= i <= eas.len(),
        ea_io::encoded_from(eas, i) is Ok,
    ensures
        ({
            let b = ea_io::encoded_from(eas, i)->Ok_0;
            &&& b.len() == packed_length(eas, eas.len() as int) - packed_length(eas, i)
            &&& forall|j: int| i <= j < eas.len() ==> #[trigger] is_in_its_place(b, eas, i, j)
        }),
    decreases eas.len() - i,
{
    if i < eas.len() {
        lemma_packed_from(eas, i + 1);
        let x = eas[i];
        let size = ea_io::entry_size(x.name.len() as int, x.value.len() as int);
        let next = if i == eas.len() - 1 {
            0
        } else {
            size
        };
        let e = ea_io::entry_bytes(x, next);
        let rest = ea_io::encoded_from(eas, i + 1)->Ok_0;
        let b = ea_io::encoded_from(eas, i)->Ok_0;
        assert(b == e + rest);
        lemma_entry_packed(x, next, size);
        assert(packed_length(eas, i + 1) == packed_length(eas, i) + size);
        assert forall|j: int| i <= j < eas.len() implies #[trigger] is_in_its_place(b, eas, i, j) by {
            if j == i {
                lemma_packed_in_longer(Seq::empty(), e, rest, 0, x, next, size);
                assert(Seq::<u8>::empty() + e + rest =~= b);
            } else {
                assert(is_in_its_place(rest, eas, i + 1, j));
                lemma_moved_back(e, rest, eas, i, j);
            }
        }
    }
}

proof fn lemma_moved_back(e: Seq<u8>, rest: Seq<u8>, eas: Seq<EaView>, i: int, j: int)
    requires
        0 <= i < j < eas.len(),
        e.len() == packed_length(eas, i + 1) - packed_length(eas, i),
        is_in_its_place(rest, eas, i + 1, j),
    ensures
        is_in_its_place(e + rest, eas, i, j),
{
    let at = packed_length(eas, j) - packed_length(eas, i + 1);
    let size = packed_length(eas, j + 1) - packed_length(eas, j);
    let next = if j == eas.len() - 1 {
        0
    } else {
        size
    };
    lemma_packed_in_longer(e, rest, Seq::empty(), at, eas[j], next, size);
    assert(e + rest + Seq::<u8>::empty() =~= e + rest);
}

proof fn lemma_entry_packed(x: EaView, next: int, size: int)
    requires
        x.name.len() <= 254,
        x.value.len() <= 65535,
        size == ea_io::entry_size(x.name.len() as int, x.value.len() as int),
        next == 0 || next == size,
    ensures
        ea_io::entry_bytes(x, next).len() == size,
        is_packed(ea_io::entry_bytes(x, next), 0, x, next, size),
{
    let e = ea_io::entry_bytes(x, next);
    let n = x.name.len() as int;
    let v = x.value.len() as int;
    let a = bytes::bytes32(next);
    let c = bytes::bytes16(v);
    assert(a.len() == 4);
    assert(layout_laws::stands(e, 0, a));
    layout_laws::lemma_field32(e, 0, next);
    assert(layout_laws::stands(e, 6, c));
    layout_laws::lemma_field16(e, 6, v);
    assert(e[4] == x.flags && e[5] == n);
    assert forall|k: int| 0 <= k < n implies e[0 + 8 + k] == #[trigger] x.name[k] by {}
    assert forall|k: int| 0 <= k < v implies e[0 + 9 + n + k] == #[trigger] x.value[k] by {}
}

proof fn lemma_packed_in_longer(
    before: Seq<u8>,
    b: Seq<u8>,
    behind: Seq<u8>,
    at: int,
    x: EaView,
    next: int,
    size: int,
)
    requires
        is_packed(b, at, x, next, size),
        9 + x.name.len() + x.value.len() <= size,
    ensures
        is_packed(before + b + behind, before.len() + at, x, next, size),
{
    let all = before + b + behind;
    let p = before.len() as int;
    let n = x.name.len() as int;
    assert forall|k: int| 0 <= k < b.len() implies all[p + k] == #[trigger] b[k] by {}
    assert(all[p + at] == b[at] && all[p + (at + 1)] == b[at + 1] && all[p + (at + 2)] == b[at + 2]
        && all[p + (at + 3)] == b[at + 3] && all[p + (at + 4)] == b[at + 4] && all[p + (at + 5)]
        == b[at + 5] && all[p + (at + 6)] == b[at + 6] && all[p + (at + 7)] == b[at + 7]);
    assert(all[p + (at + 8 + n)] == b[at + 8 + n]);
    assert forall|k: int| 0 <= k < n implies all[p + at + 8 + k] == #[trigger] x.name[k] by {
        assert(all[p + (at + 8 + k)] == b[at + 8 + k]);
    }
    assert forall|k: int| 0 <= k < x.value.len() implies all[p + at + 9 + n + k]
        == #[trigger] x.value[k] by {
        assert(all[p + (at + 9 + n + k)] == b[at + 9 + n + k]);
    }
    assert forall|k: int|
        p + at + 9 + n + x.value.len() <= k < p + at + size implies #[trigger] all[k] == 0 by {
        assert(all[p + (k - p)] == b[k - p]);
    }
}

/// Unpacking takes an attribute and goes on as far behind the attribute's start
/// as it says: what is there unpacks as it would by itself. Where it says 0, the
/// list ends.
pub proof fn lemma_unpacked_one_behind_the_other(first: Seq<u8>, rest: Seq<u8>, x: EaView)
    requires
        first.len() >= 8,
        is_unpacked(first + rest, x),
        bytes::le32(first, 0) == 0 || bytes::le32(first, 0) == first.len(),
    ensures
        bytes::le32(first, 0) == 0 ==> ea_io::decoded(first + rest) == Ok::<
            Seq<EaView>,
            Seq<char>,
        >(seq![x]),
        bytes::le32(first, 0) != 0 ==> match ea_io::decoded(rest) {
            Ok(more) => ea_io::decoded(first + rest) == Ok::<Seq<EaView>, Seq<char>>(seq![x] + more),
            Err(_) => ea_io::decoded(first + rest) is Err,
        },
{
    let b = first + rest;
    assert(forall|k: int| 0 <= k < first.len() ==> b[k] == first[k]);
    assert(bytes::le32(b, 0) == bytes::le32(first, 0));
    let n = x.name.len() as int;
    assert(b.subrange(8, 8 + n) =~= x.name);
    assert(b.subrange(9 + n, 9 + n + x.value.len()) =~= x.value);
    lemma_unpacked_behind(first, rest, 0);
}

/// The fields of `x` stand at the start of the bytes.
pub open spec fn is_unpacked(b: Seq<u8>, x: EaView) -> bool {
    let n = x.name.len() as int;
    let v = x.value.len() as int;
    &&& 9 + n + v <= b.len()
    &&& b[4] == x.flags
    &&& b[5] == n
    &&& bytes::le16(b, 6) == v
    &&& forall|k: int| 0 <= k < n ==> b[8 + k] == #[trigger] x.name[k]
    &&& forall|k: int| 0 <= k < v ==> b[9 + n + k] == #[trigger] x.value[k]
}

proof fn lemma_unpacked_behind(first: Seq<u8>, rest: Seq<u8>, cursor: int)
    requires
        0 <= cursor,
    ensures
        match ea_io::decoded_from(rest, cursor) {
            Ok(more) => ea_io::decoded_from(first + rest, first.len() + cursor) == Ok::<
                Seq<EaView>,
                Seq<char>,
            >(more),
            Err(_) => ea_io::decoded_from(first + rest, first.len() + cursor) is Err,
        },
    decreases rest.len() - cursor,
{
    let b = first + rest;
    let p = first.len() as int;
    if cursor + 8 <= rest.len() {
        assert forall|k: int| 0 <= k < rest.len() implies b[p + k] == #[trigger] rest[k] by {}
        assert(b[p + cursor] == rest[cursor] && b[p + (cursor + 1)] == rest[cursor + 1] && b[p + (
        cursor + 2)] == rest[cursor + 2] && b[p + (cursor + 3)] == rest[cursor + 3] && b[p + (cursor
            + 4)] == rest[cursor + 4] && b[p + (cursor + 5)] == rest[cursor + 5] && b[p + (cursor
            + 6)] == rest[cursor + 6] && b[p + (cursor + 7)] == rest[cursor + 7]);
        let next = bytes::le32(rest, cursor);
        let name_start = cursor + 8;
        let value_start = name_start + rest[cursor + 5] + 1;
        let value_end = value_start + bytes::le16(rest, cursor + 6);
        if value_end <= rest.len() {
            assert(b.subrange(p + name_start, p + value_start - 1) =~= rest.subrange(
                name_start,
                value_start - 1,
            ));
            assert(b.subrange(p + value_start, p + value_end) =~= rest.subrange(
                value_start,
                value_end,
            ));
            if next >= 8 && cursor + next <= rest.len() {
                lemma_unpacked_behind(first, rest, cursor + next);
            }
        }
    }
}

/// Bytes too few for a header hold nothing, and an attribute that is not all there
/// or says a next one inside its header or behind the end is refused.
pub proof fn lemma_what_is_not_unpacked(b: Seq<u8>)
    ensures
        b.len() < 8 ==> ea_io::decoded(b) == Ok::<Seq<EaView>, Seq<char>>(Seq::empty()),
        b.len() >= 8 && (9 + b[5] + bytes::le16(b, 6) > b.len() || 0 < bytes::le32(b, 0) < 8
            || bytes::le32(b, 0) > b.len()) ==> ea_io::decoded(b) is Err,
{
}

/// Two names are one where they are as long and differ at most in the case of
/// letters of ASCII.
pub proof fn lemma_same_name(a: Seq<u8>, b: Seq<u8>)
    ensures
        ea_io::folded(a) == ea_io::folded(b) <==> a.len() == b.len() && forall|i: int|
            0 <= i < a.len() ==> same_letter(#[trigger] a[i], b[i]),
{
    if ea_io::folded(a) == ea_io::folded(b) {
        assert(ea_io::folded(a).len() == a.len());
        assert(ea_io::folded(b).len() == b.len());
        assert forall|i: int| 0 <= i < a.len() implies same_letter(#[trigger] a[i], b[i]) by {
            assert(ea_io::folded(a)[i] == ea_io::lowered(a[i]));
            assert(ea_io::folded(b)[i] == ea_io::lowered(b[i]));
        }
    }
    if a.len() == b.len() && forall|i: int|
        0 <= i < a.len() ==> same_letter(#[trigger] a[i], b[i]) {
        assert forall|i: int| 0 <= i < a.len() implies ea_io::folded(a)[i] == ea_io::folded(b)[i] by {
            assert(same_letter(a[i], b[i]));
        }
        assert(ea_io::folded(a) =~= ea_io::folded(b));
    }
}

/// The bytes are the same, or a letter and its other case.
pub open spec fn same_letter(x: u8, y: u8) -> bool {
    ||| x == y
    ||| 'A' as int <= x <= 'Z' as int && y == x + 32
    ||| 'A' as int <= y <= 'Z' as int && x == y + 32
}

/// The attributes that have to be understood are those with the highest flag: of
/// two lists they are as many as of the one and of the other.
pub proof fn lemma_needed_are_counted(a: Seq<Ea>, b: Seq<Ea>, e: Ea)
    ensures
        ea_io::needed_from(Seq::empty(), 0) == 0,
        ea_io::needed_from(seq![e], 0) == if e.flags >= 128 {
            1int
        } else {
            0
        },
        ea_io::needed_from(a + b, 0) == ea_io::needed_from(a, 0) + ea_io::needed_from(b, 0),
{
    reveal_with_fuel(ea_io::needed_from, 3);
    lemma_needed_in_both(a, b, 0);
}

proof fn lemma_needed_in_both(a: Seq<Ea>, b: Seq<Ea>, i: int)
    requires
        0 <= i <= a.len(),
    ensures
        ea_io::needed_from(a + b, i) == ea_io::needed_from(a, i) + ea_io::needed_from(b, 0),
    decreases a.len() - i,
{
    if i < a.len() {
        assert((a + b)[i] == a[i]);
        lemma_needed_in_both(a, b, i + 1);
    } else {
        lemma_needed_behind(a, b, 0);
    }
}

proof fn lemma_needed_behind(a: Seq<Ea>, b: Seq<Ea>, i: int)
    requires
        0 <= i <= b.len(),
    ensures
        ea_io::needed_from(a + b, a.len() + i) == ea_io::needed_from(b, i),
    decreases b.len() - i,
{
    if i < b.len() {
        assert((a + b)[a.len() + i] == b[i]);
        lemma_needed_behind(a, b, i + 1);
    }
}

/// An attribute that is put into a list takes the place of the one of its name,
/// or the last place; every other keeps its own.
pub proof fn lemma_put_in_its_place(list: Seq<Ea>, entry: Ea, i: int)
    requires
        0 <= i < list.len(),
        ea_io::folded(list[i].name@) != ea_io::folded(entry.name@),
    ensures
        ea_io::upserted(list, entry).len() == list.len() || ea_io::upserted(list, entry)
            == list.push(entry),
        ea_io::upserted(list, entry)[i] == list[i],
{
    lemma_position_has_name(list, entry.name@, 0);
}

proof fn lemma_position_has_name(list: Seq<Ea>, name: Seq<u8>, i: int)
    requires
        0 <= i,
    ensures
        ea_io::position_from(list, name, i) matches Some(k) ==> i <= k < list.len()
            && ea_io::folded(list[k].name@) == ea_io::folded(name),
    decreases list.len() - i,
{
    if i < list.len() && ea_io::folded(list[i].name@) != ea_io::folded(name) {
        lemma_position_has_name(list, name, i + 1);
    }
}

/// To remove a name takes out what has it and keeps the rest, in its order: what
/// is left of two lists one behind the other is what is left of each.
pub proof fn lemma_removed_from_both(a: Seq<Ea>, b: Seq<Ea>, e: Ea, name: Seq<u8>)
    ensures
        ea_io::without(a + b, name) == ea_io::without(a, name) + ea_io::without(b, name),
        ea_io::without(seq![e], name) == if ea_io::folded(e.name@) == ea_io::folded(name) {
            Seq::empty()
        } else {
            seq![e]
        },
    decreases b.len(),
{
    assert(seq![e].drop_last() =~= Seq::<Ea>::empty());
    reveal_with_fuel(ea_io::without, 2);
    if b.len() == 0 {
        assert(a + b =~= a);
        assert(ea_io::without(a, name) + ea_io::without(b, name) =~= ea_io::without(a, name));
    } else {
        lemma_removed_from_both(a, b.drop_last(), e, name);
        assert((a + b).drop_last() =~= a + b.drop_last());
        assert((a + b).last() == b.last());
        assert(ea_io::without(a + b, name) =~= ea_io::without(a, name) + ea_io::without(b, name));
    }
}

/// The flags of a volume stand 10 bytes into the value of their attribute, whose
/// header says at 0x14 where the value begins. The volume is dirty where the
/// lowest bit is 1. To clear it changes that bit and nothing else.
pub proof fn lemma_where_the_flags_are(
    before: spec_fn(int) -> u8,
    now: spec_fn(int) -> u8,
    attr: int,
)
    ensures
        ({
            let place = attr + before(attr + 0x14) + 256 * before(attr + 0x15) + 10;
            &&& fsck::flags_place(before, attr) == place
            &&& fsck::dirty(before, attr) <==> before(place) % 2 == 1
            &&& fsck::dirty(before, attr) && fsck::flag_cleared(before, now, attr) ==> {
                &&& now(place) == before(place) - 1
                &&& forall|i: int| i != place ==> #[trigger] now(i) == before(i)
            }
        }),
{
    let place = fsck::flags_place(before, attr);
    let low = before(place) as int;
    let high = before(place + 1) as int;
    let word = bytes::bytes16(low + 256 * high - 1);
    if fsck::dirty(before, attr) && fsck::flag_cleared(before, now, attr) {
        assert(low % 2 == 1);
        assert((low + 256 * high - 1) % 256 == low - 1);
        assert((low + 256 * high - 1) / 256 == high);
        assert(now(place) == word[0]);
        assert(now(place + 1) == word[1]);
    }
}

/// An emptied log is all ones, and nothing outside it changed.
pub proof fn lemma_log_is_all_ones(
    before: spec_fn(int) -> u8,
    now: spec_fn(int) -> u8,
    at: int,
    n: int,
)
    ensures
        fsck::log_emptied(before, now, at, n) <==> forall|i: int|
            (at <= i < at + n ==> #[trigger] now(i) == 255) && (i < at || at + n <= i ==> now(i)
                == before(i)),
        forall|i: int| at <= i < at + n ==> #[trigger] fsck::with_empty_log(before, at, n)(i) == 255,
        forall|i: int|
            i < at || at + n <= i ==> #[trigger] fsck::with_empty_log(before, at, n)(i) == before(i),
{
    if forall|i: int|
        (at <= i < at + n ==> #[trigger] now(i) == 255) && (i < at || at + n <= i ==> now(i)
            == before(i)) {
        assert forall|i: int| #[trigger] now(i) == if at <= i < at + n {
            fsck::LOGFILE_EMPTY_FILL
        } else {
            before(i)
        } by {}
    }
}

/// The steps of emptying a log go from 0 to its length, each but the last by
/// 65536 bytes.
pub proof fn lemma_steps_through_the_log(n: u64, i: int)
    requires
        0 <= i < fsck::log_pieces(n as int),
    ensures
        ({
            let steps = fsck::log_steps(n, fsck::log_pieces(n as int));
            &&& steps.len() == fsck::log_pieces(n as int) + 1
            &&& steps[0].1 == 0
            &&& steps.last().1 == n
            &&& steps[i].1 < n
            &&& steps[i].2 == n
            &&& steps[i + 1].1 == if steps[i].1 + 65536 < n {
                steps[i].1 + 65536
            } else {
                n as int
            }
        }),
{
    let p = fsck::log_pieces(n as int);
    assert(p == (n + 65535) / 65536);
}

/// The extended attributes of a record are unpacked from the value of their
/// attribute; a record without one has none, and one that keeps it elsewhere is
/// refused.
pub proof fn lemma_attributes_of_a_record(record: Seq<u8>)
    ensures
        match attr_io::found_attribute(record, AttrType::ExtendedAttribute, None) {
            None => ea_io::in_record(record) == Ok::<Seq<EaView>, Seq<char>>(Seq::empty()),
            Some(loc) => if loc.is_resident {
                let start = loc.attr_offset + loc.resident_value_offset->0;
                ea_io::in_record(record) == ea_io::decoded(
                    record.subrange(start, start + loc.resident_value_length->0),
                )
            } else {
                ea_io::in_record(record) is Err
            },
        },
{
}

} // verus!
