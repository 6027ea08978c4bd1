//! When directories, names and clusters can be changed, and what the change does
//! byte by byte.

use vstd::prelude::*;

use crate::attr_io;
use crate::attr_io::{AttrLocation, AttrType};
use crate::attr_resize;
use crate::bitmap;
use crate::bitmap::BitmapLocation;
use crate::block_io;
use crate::block_io::{Faults, SeekTo};
use crate::bytes;
use crate::data_runs;
use crate::data_runs::DataRun;
use crate::idx_block;
use crate::index_edit;
use crate::index_edit::BlockKind;
use crate::index_io;
use crate::index_io::IndexEntryLocation;
use crate::mft_io::BootParams;
use crate::text;
use crate::utf16;

verus! {

/// Bytes that are moved stand at their new place in their order, the gap that
/// they leave is zero, and nothing else changes.
pub proof fn lemma_moved_bytes(r: Seq<u8>, from: int, end: int, to: int)
    requires
        0 <= from <= end <= r.len(),
        0 <= to,
        to + end - from <= r.len(),
    ensures
        ({
            let s = attr_resize::shifted(r, from, end, to);
            &&& s.len() == r.len()
            &&& forall|k: int|
                from <= k < end ==> #[trigger] r[k] == s[to + (k - from)]
            &&& forall|k: int|
                from <= k < end && !(to <= k < to + end - from) ==> #[trigger] s[k] == 0
            &&& forall|k: int|
                0 <= k < r.len() && (k < from && k < to || k >= end && k >= to + end - from)
                    ==> #[trigger] s[k] == r[k]
        }),
{
}

/// An entry is put into a block exactly where the block is one, its entries and
/// the room for them are inside it, they begin behind the header at a multiple of
/// 8, none of them has a sub-node, the entry fits the room, and the entries can be
/// walked to its place.
pub proof fn lemma_when_an_entry_fits_a_block(
    b: Seq<u8>,
    e: Seq<u8>,
    new: Seq<u16>,
    table: Option<Seq<u16>>,
    malformed: Seq<char>,
)
    requires
        b.len() >= 0x28,
    ensures
        ({
            let first = bytes::le32(b, 0x18);
            let total = bytes::le32(b, 0x1C);
            let room = bytes::le32(b, 0x20);
            index_edit::inserted_in_block(b, e, new, table) is Ok <==> index_io::is_indx(b) && 0x18
                + room <= b.len() && total <= room && first <= total && first >= 0x10 && first % 8
                == 0 && b[0x24] % 2 == 0 && total + e.len() <= room && index_edit::place_from(
                b,
                0x18 + first,
                0x18 + total,
                new,
                table,
                malformed,
            ) is Ok
        }),
{
    let first = bytes::le32(b, 0x18);
    let total = bytes::le32(b, 0x1C);
    assert forall|other: Seq<char>|
        (#[trigger] index_edit::place_from(b, 0x18 + first, 0x18 + total, new, table, other)) is Ok
            == (index_edit::place_from(b, 0x18 + first, 0x18 + total, new, table, malformed)
            is Ok) by {
        lemma_place_whatever_is_said(b, 0x18 + first, 0x18 + total, new, table, malformed, other);
    }
}

proof fn lemma_place_whatever_is_said(
    b: Seq<u8>,
    at: int,
    end: int,
    new: Seq<u16>,
    table: Option<Seq<u16>>,
    one: Seq<char>,
    other: Seq<char>,
)
    ensures
        index_edit::place_from(b, at, end, new, table, one) is Ok <==> index_edit::place_from(
            b,
            at,
            end,
            new,
            table,
            other,
        ) is Ok,
    decreases b.len() - at,
{
    let length = index_io::entry_length(b, at);
    if index_io::in_entries(at, end, b.len() as int) && length > 0 && at + length <= b.len() {
        lemma_place_whatever_is_said(b, at + length, end, new, table, one, other);
    }
}

/// An entry is taken out of a block exactly where it is among the entries and has
/// no sub-node. Those behind it move up, the end is zero, and the block says that
/// it holds as much less. Where it is not taken out, nothing changes.
pub proof fn lemma_when_an_entry_leaves_a_block(b: Seq<u8>, entry: IndexEntryLocation)
    requires
        b.len() >= 0x20,
    ensures
        ({
            let total = bytes::le32(b, 0x1C);
            let inside = 0x18 + total <= b.len() && 0x18 <= entry.record_offset
                && entry.record_offset + entry.length <= 0x18 + total;
            let out = index_edit::removed(b, entry, BlockKind::IndexAllocation);
            &&& out.1 is Ok <==> inside && bytes::le16(b, entry.record_offset + 0xC) % 2 == 0
            &&& out.1 is Err ==> out.0 == b
            &&& out.1 is Ok && entry.record_offset >= 0x28 ==> {
                &&& out.0.len() == b.len()
                &&& bytes::le32(out.0, 0x1C) == total - entry.length
                &&& forall|k: int|
                    0 <= k < entry.record_offset && !(0x1C <= k < 0x20) ==> #[trigger] out.0[k]
                        == b[k]
                &&& forall|k: int|
                    entry.record_offset <= k < 0x18 + total - entry.length ==> #[trigger] out.0[k]
                        == b[k + entry.length]
                &&& forall|k: int|
                    0x18 + total - entry.length <= k < 0x18 + total ==> #[trigger] out.0[k] == 0
                &&& forall|k: int| 0x18 + total <= k < b.len() ==> #[trigger] out.0[k] == b[k]
            }
        }),
{
    let total = bytes::le32(b, 0x1C);
    let out = index_edit::removed(b, entry, BlockKind::IndexAllocation);
    if out.1 is Ok && entry.record_offset >= 0x28 {
        let p = entry.record_offset as int;
        let n = entry.length as int;
        let s = attr_resize::shifted(b, p + n, 0x18 + total, p);
        let field = bytes::bytes32(total - n);
        assert(field.len() == 4);
        assert(out.0 == bytes::patch(s, 0x1C, field));
        bytes::lemma_le32_of_patch(s, 0x1C, total - n);
    }
}

/// When the root of a directory takes a new entry: it is resident, its header is
/// there, its entries are inside, none of them has a sub-node, and they can be
/// walked to the entry's place.
pub proof fn lemma_when_the_root_takes_an_entry(
    r: Seq<u8>,
    ir: AttrLocation,
    new: Seq<u16>,
    table: Option<Seq<u16>>,
    malformed: Seq<char>,
)
    requires
        index_io::index_root(r) == Some(ir),
        ir.resident_value_offset is Some,
        ir.resident_value_length is Some,
    ensures
        ({
            let ih = ir.attr_offset + ir.resident_value_offset->0 + 16;
            let first = bytes::le32(r, ih);
            let total = bytes::le32(r, ih + 4);
            index_edit::place_in_root(r, new, table) is Ok <==> ir.is_resident
                && ir.resident_value_length->0 >= 16 && ih + total <= ir.attr_offset
                + ir.resident_value_offset->0 + ir.resident_value_length->0 && first <= total && r[ih
                + 0xC] % 2 == 0 && index_edit::place_from(
                r,
                ih + first,
                ih + total,
                new,
                table,
                malformed,
            ) is Ok
        }),
        index_edit::place_in_root(r, new, table) matches Ok(found) ==> found.0 == ir,
{
    let ih = ir.attr_offset + ir.resident_value_offset->0 + 16;
    let first = bytes::le32(r, ih);
    let total = bytes::le32(r, ih + 4);
    assert forall|other: Seq<char>|
        (#[trigger] index_edit::place_from(r, ih + first, ih + total, new, table, other)) is Ok == (
        index_edit::place_from(r, ih + first, ih + total, new, table, malformed) is Ok) by {
        lemma_place_whatever_is_said(r, ih + first, ih + total, new, table, malformed, other);
    }
}

/// A root that took an entry says both of what it holds and of its room that they
/// grew by the entry, and one that lost an entry that they shrank by it.
pub proof fn lemma_sizes_in_the_root(
    s: Seq<u8>,
    ir: AttrLocation,
    at: int,
    old_len: int,
    total: int,
    e: Seq<u8>,
)
    requires
        ir.resident_value_offset is Some,
        0 <= total,
        total + e.len() <= u32::MAX,
        ir.attr_offset + ir.resident_value_offset->0 + 28 <= s.len(),
    ensures
        ({
            let ih = ir.attr_offset + ir.resident_value_offset->0 + 16;
            let t = index_edit::put_into_root(s, ir, at, old_len, total, e);
            bytes::le32(t, ih + 4) == total + e.len() && bytes::le32(t, ih + 8) == total + e.len()
        }),
{
    let ih = ir.attr_offset + ir.resident_value_offset->0 + 16;
    let a = index_edit::spliced_in(s, at, index_io::value_start(ir) + old_len, e);
    let field = bytes::bytes32(total + e.len());
    assert(field.len() == 4);
    let b = bytes::patch(a, ih + 4, field);
    let t = bytes::patch(b, ih + 8, field);
    bytes::lemma_le32_of_patch(a, ih + 4, total + e.len());
    bytes::lemma_le32_of_patch(b, ih + 8, total + e.len());
    assert(t[ih + 4] == b[ih + 4] && t[ih + 5] == b[ih + 5] && t[ih + 6] == b[ih + 6] && t[ih + 7]
        == b[ih + 7]);
}

/// So it is with a root that loses an entry.
pub proof fn lemma_sizes_in_the_smaller_root(b: Seq<u8>, entry: IndexEntryLocation, ih: int)
    requires
        0 <= ih,
        ih + 12 <= b.len(),
        entry.length <= bytes::le32(b, ih + 4),
    ensures
        ({
            let t = index_edit::spliced_out_of_root(b, entry, ih);
            let total = bytes::le32(b, ih + 4);
            bytes::le32(t, ih + 4) == total - entry.length && bytes::le32(t, ih + 8) == total
                - entry.length
        }),
{
    let total = bytes::le32(b, ih + 4);
    let a = attr_resize::shifted(
        b,
        entry.record_offset + entry.length,
        ih + total,
        entry.record_offset as int,
    );
    let field = bytes::bytes32(total - entry.length);
    assert(field.len() == 4);
    let s = bytes::patch(a, ih + 4, field);
    let t = bytes::patch(s, ih + 8, field);
    bytes::lemma_le32_of_patch(a, ih + 4, total - entry.length);
    bytes::lemma_le32_of_patch(s, ih + 8, total - entry.length);
    assert(t[ih + 4] == s[ih + 4] && t[ih + 5] == s[ih + 5] && t[ih + 6] == s[ih + 6] && t[ih + 7]
        == s[ih + 7]);
}

/// An entry can be renamed exactly where the new name is as long as the old one.
/// The units of the name change, 0x52 bytes into the entry, and nothing else.
pub proof fn lemma_renamed_entry(r: Seq<u8>, entry: IndexEntryLocation, new: Seq<u16>)
    requires
        entry.record_offset + 0x52 + 2 * new.len() <= r.len(),
    ensures
        index_edit::entry_renamed(r, entry, new) is Ok <==> new.len() == entry.name_length,
        index_edit::entry_renamed(r, entry, new) matches Ok(s) ==> {
            let at = entry.record_offset + 0x52;
            &&& s.len() == r.len()
            &&& forall|i: int|
                0 <= i < new.len() ==> bytes::le16(s, at + 2 * i) == #[trigger] new[i]
            &&& forall|k: int|
                0 <= k < r.len() && !(at <= k < at + 2 * new.len()) ==> #[trigger] s[k] == r[k]
        },
{
    if new.len() == entry.name_length {
        let at = entry.record_offset + 0x52;
        let s = bytes::patch(r, at, index_edit::unit_bytes(new));
        lemma_units_patched(r, at, new);
    }
}

proof fn lemma_units_patched(r: Seq<u8>, at: int, new: Seq<u16>)
    requires
        0 <= at,
        at + 2 * new.len() <= r.len(),
    ensures
        ({
            let s = bytes::patch(r, at, index_edit::unit_bytes(new));
            forall|i: int| 0 <= i < new.len() ==> bytes::le16(s, at + 2 * i) == #[trigger] new[i]
        }),
{
    let s = bytes::patch(r, at, index_edit::unit_bytes(new));
    let units = index_edit::unit_bytes(new);
    assert forall|i: int| 0 <= i < new.len() implies bytes::le16(s, at + 2 * i)
        == #[trigger] new[i] by {
        assert(s[at + 2 * i] == units[2 * i]);
        assert(s[at + 2 * i + 1] == units[2 * i + 1]);
    }
}

/// The name in a record that is changed is that of the first `$FILE_NAME` that
/// has the old one: 0x42 bytes into its value, where its length in units is two
/// bytes before. Only names of one length are changed into one another, and only
/// the units of that name change.
pub proof fn lemma_renamed_in_the_record(r: Seq<u8>, was: Seq<char>, now: Seq<char>)
    requires
        r.len() <= usize::MAX,
    ensures
        index_edit::file_name_renamed(r, was, now) is Ok <==> utf16::encoded(was).len()
            == utf16::encoded(now).len() && exists|i: int|
            0 <= i < attr_io::attributes(r).len() && #[trigger] is_named_so(
                r,
                attr_io::attributes(r)[i],
                utf16::encoded(was),
            ),
        index_edit::file_name_renamed(r, was, now) matches Ok(s) ==> exists|i: int|
            {
                let loc = attr_io::attributes(r)[i];
                &&& 0 <= i < attr_io::attributes(r).len()
                &&& #[trigger] is_named_so(r, attr_io::attributes(r)[i], utf16::encoded(was))
                &&& forall|j: int|
                    0 <= j < i ==> !#[trigger] is_named_so(
                        r,
                        attr_io::attributes(r)[j],
                        utf16::encoded(was),
                    )
                &&& is_renamed(
                    r,
                    s,
                    loc.attr_offset + loc.resident_value_offset->0 + 0x42,
                    utf16::encoded(now),
                )
            },
{
    let locs = attr_io::attributes(r);
    let u = utf16::encoded(was);
    lemma_first_of_the_name(r, locs, u, locs.len() as int);
    if utf16::encoded(now).len() == u.len() {
        match index_edit::first_file_name(r, locs, u) {
            Some(loc) => {
                let i = choose|i: int|
                    {
                        &&& 0 <= i < locs.len()
                        &&& locs[i] == loc
                        &&& #[trigger] is_named_so(r, locs[i], u)
                        &&& forall|j: int| 0 <= j < i ==> !#[trigger] is_named_so(r, locs[j], u)
                    };
                attr_io::lemma_attributes_are_within(r);
                assert(attr_io::within_record(locs[i], r));
                let at = loc.attr_offset + loc.resident_value_offset->0 + 0x42;
                lemma_units_patched(r, at, utf16::encoded(now));
                assert(is_renamed(
                    r,
                    index_edit::file_name_renamed(r, was, now)->Ok_0,
                    at,
                    utf16::encoded(now),
                ));
                assert(is_named_so(r, attr_io::attributes(r)[i], u));
            },
            None => {},
        }
    }
}

/// The attribute is a `$FILE_NAME` and its name is the units.
pub open spec fn is_named_so(r: Seq<u8>, loc: AttrLocation, units: Seq<u16>) -> bool {
    let start = loc.attr_offset + loc.resident_value_offset->0;
    &&& loc.type_code == 0x30
    &&& loc.resident_value_offset is Some
    &&& loc.resident_value_length is Some
    &&& 0x42 + 2 * units.len() <= loc.resident_value_length->0
    &&& r[start + 0x40] == units.len()
    &&& forall|i: int|
        0 <= i < units.len() ==> bytes::le16(r, start + 0x42 + 2 * i) == #[trigger] units[i]
}

/// `s` is `r` with the units from `at` on.
pub open spec fn is_renamed(r: Seq<u8>, s: Seq<u8>, at: int, units: Seq<u16>) -> bool {
    &&& s.len() == r.len()
    &&& forall|i: int| 0 <= i < units.len() ==> bytes::le16(s, at + 2 * i) == #[trigger] units[i]
    &&& forall|k: int|
        0 <= k < r.len() && !(at <= k < at + 2 * units.len()) ==> #[trigger] s[k] == r[k]
}

proof fn lemma_named_so(r: Seq<u8>, loc: AttrLocation, units: Seq<u16>)
    ensures
        is_named_so(r, loc, units) <==> index_edit::file_name_is(r, loc, units),
{
    let start = loc.attr_offset + loc.resident_value_offset->0;
    let u = attr_io::units_at(r, start + 0x42, units.len() as int);
    if is_named_so(r, loc, units) {
        assert forall|i: int| 0 <= i < units.len() implies u[i] == units[i] by {
            let e = units[i];
        }
        assert(u =~= units);
    }
    if index_edit::file_name_is(r, loc, units) {
        assert forall|i: int| 0 <= i < units.len() implies bytes::le16(r, start + 0x42 + 2 * i)
            == #[trigger] units[i] by {
            assert(u[i] == units[i]);
        }
    }
}

proof fn lemma_first_of_the_name(r: Seq<u8>, locs: Seq<AttrLocation>, units: Seq<u16>, n: int)
    requires
        n == locs.len(),
    ensures
        match index_edit::first_file_name(r, locs, units) {
            Some(loc) => exists|i: int|
                {
                    &&& 0 <= i < locs.len()
                    &&& locs[i] == loc
                    &&& #[trigger] is_named_so(r, locs[i], units)
                    &&& forall|j: int| 0 <= j < i ==> !#[trigger] is_named_so(r, locs[j], units)
                },
            None => forall|j: int|
                0 <= j < locs.len() ==> !#[trigger] is_named_so(r, locs[j], units),
        },
    decreases n,
{
    if locs.len() > 0 {
        let rest = locs.skip(1);
        lemma_named_so(r, locs[0], units);
        if index_edit::file_name_is(r, locs[0], units) {
            assert(is_named_so(r, locs[0], units));
        } else {
            lemma_first_of_the_name(r, rest, units, n - 1);
            assert forall|j: int| 0 <= j < rest.len() implies rest[j] == locs[j + 1] by {}
            match index_edit::first_file_name(r, locs, units) {
                Some(loc) => {
                    let i = choose|i: int|
                        {
                            &&& 0 <= i < rest.len()
                            &&& rest[i] == loc
                            &&& #[trigger] is_named_so(r, rest[i], units)
                            &&& forall|j: int|
                                0 <= j < i ==> !#[trigger] is_named_so(r, rest[j], units)
                        };
                    assert(is_named_so(r, locs[i + 1], units));
                    assert forall|j: int| 0 <= j < i + 1 implies !#[trigger] is_named_so(
                        r,
                        locs[j],
                        units,
                    ) by {
                        if j > 0 {
                            assert(locs[j] == rest[j - 1]);
                            assert(!is_named_so(r, rest[j - 1], units));
                        }
                    }
                },
                None => {
                    assert forall|j: int| 0 <= j < locs.len() implies !#[trigger] is_named_so(
                        r,
                        locs[j],
                        units,
                    ) by {
                        if j > 0 {
                            assert(locs[j] == rest[j - 1]);
                            assert(!is_named_so(r, rest[j - 1], units));
                        }
                    }
                },
            }
        }
    }
}

/// Clusters cannot be made what one of them is already: where one is, nothing on
/// the device changes and the caller is told.
pub proof fn lemma_clusters_as_they_are_already(
    bm: &BitmapLocation,
    before: spec_fn(int) -> u8,
    now: spec_fn(int) -> u8,
    lcn: int,
    n: int,
    set: bool,
    faults_before: Option<Faults>,
    faults_now: Option<Faults>,
    res: Result<(), String>,
    k: int,
)
    requires
        bitmap::mutation_came_out(bm, before, now, lcn, n, set, faults_before, faults_now, res),
        0 <= lcn <= k < lcn + n,
        bitmap::allocated(before, bm, k) == set,
    ensures
        res is Err,
        forall|p: int| #[trigger] now(p) == before(p),
{
    let first = lcn / 8;
    let count = bitmap::byte_span(lcn, n);
    let b = bitmap::stored_bytes(before, bm, first, count);
    let i = k - lcn;
    assert(0 <= k / 8 - first < count);
    assert((lcn % 8 + i) / 8 == k / 8 - first);
    assert((lcn % 8 + i) % 8 == k % 8);
    assert(b[k / 8 - first] == bitmap::stored(before, bm, k / 8));
    assert(bitmap::bit_of(b, lcn % 8 + i) == set);
    lemma_one_is_found(b, lcn % 8, 0, n, set, i);
}

proof fn lemma_one_is_found(b: Seq<u8>, from: int, i: int, n: int, on: bool, k: int)
    requires
        0 <= i <= k < n,
        bitmap::bit_of(b, from + k) == on,
    ensures
        bitmap::first_with(b, from, i, n, on) is Some,
    decreases n - i,
{
    if bitmap::bit_of(b, from + i) != on {
        lemma_one_is_found(b, from, i + 1, n, on, k);
    }
}

/// What is found for a request for free clusters: all of them are free, they are
/// inside the range, and at every place before there is one in use among as many.
pub proof fn lemma_first_free_clusters(
    c: spec_fn(int) -> u8,
    bm: &BitmapLocation,
    n: int,
    begin: int,
    finish: int,
    s: int,
)
    ensures
        bitmap::is_first_free(c, bm, n, begin, finish, s) <==> begin <= s && s + n <= finish && (
        forall|k: int| s <= k < s + n ==> !#[trigger] bitmap::allocated(c, bm, k)) && forall|t: int|
            begin <= t < s ==> #[trigger] in_use_among(c, bm, t, n),
        bitmap::none_free(c, bm, n, begin, finish) <==> forall|t: int|
            begin <= t && t + n <= finish ==> #[trigger] in_use_among(c, bm, t, n),
{
    assert forall|t: int| #[trigger] in_use_among(c, bm, t, n) == !bitmap::all_free(c, bm, t, n) by {
        if !bitmap::all_free(c, bm, t, n) {
            let k = choose|k: int| t <= k < t + n && bitmap::allocated(c, bm, k);
            assert(bitmap::allocated(c, bm, k));
        }
    }
    if bitmap::is_first_free(c, bm, n, begin, finish, s) {
        assert forall|t: int| begin <= t < s implies #[trigger] in_use_among(c, bm, t, n) by {
            assert(!bitmap::all_free(c, bm, t, n));
        }
    }
    if forall|t: int| begin <= t < s ==> #[trigger] in_use_among(c, bm, t, n) {
        assert forall|t: int| begin <= t < s implies !#[trigger] bitmap::all_free(c, bm, t, n) by {
            assert(in_use_among(c, bm, t, n));
        }
    }
    if bitmap::none_free(c, bm, n, begin, finish) {
        assert forall|t: int| begin <= t && t + n <= finish implies #[trigger] in_use_among(
            c,
            bm,
            t,
            n,
        ) by {
            assert(!bitmap::all_free(c, bm, t, n));
        }
    }
    if forall|t: int| begin <= t && t + n <= finish ==> #[trigger] in_use_among(c, bm, t, n) {
        assert forall|t: int| begin <= t && t + n <= finish implies !#[trigger] bitmap::all_free(
            c,
            bm,
            t,
            n,
        ) by {
            assert(in_use_among(c, bm, t, n));
        }
    }
}

/// One of the `n` clusters from `t` on is in use.
pub open spec fn in_use_among(c: spec_fn(int) -> u8, bm: &BitmapLocation, t: int, n: int) -> bool {
    exists|k: int| t <= k < t + n && #[trigger] bitmap::allocated(c, bm, k)
}

/// The bitmap that was located: its runs are those of the unnamed data of the
/// record, and it has a bit for each cluster, as far as its bytes reach.
pub proof fn lemma_located_bitmap(
    bm: BitmapLocation,
    params: BootParams,
    record: Seq<u8>,
    mft_range: Result<(u64, u64), String>,
    protected: Seq<(u64, u64)>,
    loc: AttrLocation,
)
    requires
        bitmap::is_located(bm, params, record, mft_range, protected),
        attr_io::found_attribute(record, AttrType::Data, None) == Some(loc),
        params.cluster_size > 0,
    ensures
        bm.params == params,
        !loc.is_resident,
        data_runs::decoded(
            record.subrange(
                loc.attr_offset + loc.non_resident_mapping_pairs_offset->0,
                loc.attr_offset + loc.attr_length,
            ),
        ) == Ok::<Seq<DataRun>, Seq<char>>(bm.runs@),
        bm.value_length == loc.non_resident_value_length->0,
        8 * bm.value_length <= u64::MAX ==> bm.total_bits <= 8 * bm.value_length,
        0 < params.capacity() ==> bm.total_bits <= params.capacity(),
        params.capacity() == 0 && 8 * bm.value_length <= u64::MAX ==> bm.total_bits == 8
            * bm.value_length,
        bm.total_bits == params.capacity() || bm.total_bits == 8 * bm.value_length || 8
            * bm.value_length > u64::MAX,
        bm.other_protected@.len() == protected.len(),
        forall|i: int|
            0 <= i < protected.len() ==> {
                let r = #[trigger] bm.other_protected@[i];
                r.0 == protected[i].0 / params.cluster_size
            },
        bitmap::BITMAP_RECORD_NUMBER == 6,
{
    assert forall|i: int| 0 <= i < protected.len() implies {
        let r = #[trigger] bm.other_protected@[i];
        r.0 == protected[i].0 / params.cluster_size
    } by {
        assert(bm.other_protected@[i] == bitmap::cluster_range(params, protected[i]));
    }
}

/// Runs follow one another where each begins where the one before it ends, none
/// is empty, and the last ends within 64 bits.
pub proof fn lemma_runs_that_follow_one_another(runs: Seq<DataRun>, from: int)
    ensures
        data_runs::contiguous_from(runs, from) <==> forall|i: int|
            0 <= i < runs.len() ==> #[trigger] follows(runs, from, i),
    decreases runs.len(),
{
    if runs.len() > 0 {
        let rest = runs.skip(1);
        let next = from + runs[0].length;
        lemma_runs_that_follow_one_another(rest, next);
        if data_runs::contiguous_from(runs, from) {
            assert forall|i: int| 0 <= i < runs.len() implies #[trigger] follows(runs, from, i) by {
                if i > 0 {
                    assert(follows(rest, next, i - 1));
                    assert(rest[i - 1] == runs[i]);
                    assert(i > 1 ==> rest[i - 2] == runs[i - 1]);
                }
            }
        }
        if forall|i: int| 0 <= i < runs.len() ==> #[trigger] follows(runs, from, i) {
            assert(follows(runs, from, 0));
            assert forall|i: int| 0 <= i < rest.len() implies #[trigger] follows(rest, next, i) by {
                assert(follows(runs, from, i + 1));
                assert(rest[i] == runs[i + 1]);
                assert(i > 0 ==> rest[i - 1] == runs[i]);
            }
        }
    }
}

/// Run `i` begins where the one before it ends, or at `from`.
pub open spec fn follows(runs: Seq<DataRun>, from: int, i: int) -> bool {
    &&& runs[i].starting_vcn == if i == 0 {
        from
    } else {
        runs[i - 1].starting_vcn + runs[i - 1].length
    }
    &&& runs[i].length > 0
    &&& runs[i].starting_vcn + runs[i].length <= u64::MAX
}

/// The address of the last run on disk among the first `i`, or 0.
pub open spec fn last_address(runs: Seq<DataRun>, i: int) -> int
    decreases i,
{
    if i <= 0 {
        0
    } else {
        match runs[i - 1].lcn {
            Some(lcn) => lcn as int,
            None => last_address(runs, i - 1),
        }
    }
}

/// The bytes that the entries from run `i` on take: for each one byte, the length
/// in as few bytes as hold it, and where it is on disk the distance from the last
/// address in as few as hold that.
pub open spec fn least_bytes(runs: Seq<DataRun>, i: int) -> int
    decreases runs.len() - i,
{
    if i < 0 || i >= runs.len() {
        1
    } else {
        1 + data_runs::signed_width(runs[i].length as int) + (match runs[i].lcn {
            Some(lcn) => data_runs::signed_width(lcn - last_address(runs, i)) as int,
            None => 0,
        }) + least_bytes(runs, i + 1)
    }
}

/// A run list takes no more bytes than it has to, and ends with a zero.
pub proof fn lemma_run_list_is_shortest(runs: Seq<DataRun>)
    requires
        data_runs::encoded(runs) is Ok,
    ensures
        data_runs::encoded(runs)->Ok_0.len() == least_bytes(runs, 0),
        data_runs::encoded(runs)->Ok_0.last() == 0,
{
    lemma_shortest_from(runs, 0, 0);
}

proof fn lemma_shortest_from(runs: Seq<DataRun>, i: int, vcn: int)
    requires
        0 <= i <= runs.len(),
        data_runs::encoded_from(runs, i, last_address(runs, i), vcn) is Ok,
    ensures
        ({
            let b = data_runs::encoded_from(runs, i, last_address(runs, i), vcn)->Ok_0;
            b.len() == least_bytes(runs, i) && b.len() > 0 && b.last() == 0
        }),
    decreases runs.len() - i,
{
    if i < runs.len() {
        let r = runs[i];
        let prev = last_address(runs, i);
        lemma_shortest_from(runs, i + 1, vcn + r.length);
        let e = data_runs::entry_bytes(r, prev);
        let rest = data_runs::encoded_from(
            runs,
            i + 1,
            last_address(runs, i + 1),
            vcn + r.length,
        )->Ok_0;
        let b = data_runs::encoded_from(runs, i, prev, vcn)->Ok_0;
        assert(b == e + rest);
        assert(b.last() == rest.last());
        let n = data_runs::signed_width(r.length as int);
        lemma_length_of_bytes(r.length as nat, n);
        if let Some(lcn) = r.lcn {
            let m = data_runs::signed_width(lcn - prev);
            lemma_length_of_bytes(data_runs::unsigned(lcn - prev, m) as nat, m);
        }
    }
}

proof fn lemma_length_of_bytes(v: nat, n: nat)
    ensures
        data_runs::bytes_of(v, n).len() == n,
    decreases n,
{
    if n > 0 {
        lemma_length_of_bytes(v / 256, (n - 1) as nat);
    }
}

/// The run that is found for a cluster is the one that covers it.
pub proof fn lemma_run_of_a_cluster(runs: Seq<DataRun>, from: int, k: int, v: int)
    requires
        data_runs::contiguous_from(runs, from),
    ensures
        0 <= k < runs.len() && runs[k].starting_vcn <= v < runs[k].starting_vcn + runs[k].length
            ==> data_runs::covering_run(runs, v) == Some(runs[k]),
        runs.len() == 0 || v < from || v >= runs.last().starting_vcn + runs.last().length
            ==> data_runs::covering_run(runs, v) is None,
    decreases runs.len(),
{
    if runs.len() > 0 {
        let rest = runs.skip(1);
        let next = from + runs[0].length;
        lemma_run_of_a_cluster(rest, next, k - 1, v);
        lemma_runs_that_follow_one_another(runs, from);
        assert(follows(runs, from, 0));
        if rest.len() > 0 {
            assert(rest.last() == runs.last());
        }
        if 0 < k < runs.len() {
            assert(rest[k - 1] == runs[k]);
            lemma_starts_grow(runs, from, k);
        }
        if runs.len() > 0 && v >= runs.last().starting_vcn + runs.last().length {
            lemma_starts_grow(runs, from, runs.len() - 1);
        }
    }
}

proof fn lemma_starts_grow(runs: Seq<DataRun>, from: int, k: int)
    requires
        data_runs::contiguous_from(runs, from),
        0 <= k < runs.len(),
    ensures
        k > 0 ==> runs[0].starting_vcn + runs[0].length <= runs[k].starting_vcn,
    decreases k,
{
    lemma_runs_that_follow_one_another(runs, from);
    assert(follows(runs, from, k));
    if k > 1 {
        lemma_starts_grow(runs, from, k - 1);
        assert(follows(runs, from, k - 1));
    }
}

/// Where a seek leads: so far from the start, from the end, or from the position,
/// each a number with a sign.
pub proof fn lemma_where_a_seek_leads(p: u64, d: i64, position: u64, size: u64)
    requires
        p <= i64::MAX,
        position <= i64::MAX,
        size <= i64::MAX,
    ensures
        block_io::seek_target(SeekTo::Start(p), position, size) == p,
        block_io::seek_target(SeekTo::End(d), position, size) == size + d,
        block_io::seek_target(SeekTo::Current(d), position, size) == position + d,
{
}

/// A number of 64 bits read with a sign: it stays what it was modulo 2 to the 64,
/// and lies on both sides of zero.
pub proof fn lemma_number_with_a_sign(v: u64)
    ensures
        i64::MIN <= block_io::as_signed(v) <= i64::MAX,
        block_io::as_signed(v) == v || block_io::as_signed(v) == v - 0x1_0000_0000_0000_0000,
{
}

/// The runs and the length of an index are those of its attribute, and its bitmap
/// is the value of the attribute of that name.
pub proof fn lemma_parts_of_an_index(
    params: BootParams,
    record: Seq<u8>,
    spilled: Result<Vec<u8>, String>,
    ia: AttrLocation,
    map: AttrLocation,
)
    requires
        attr_io::found_attribute(record, AttrType::IndexAllocation, Some("$I30"@)) == Some(ia),
        attr_io::found_attribute(record, AttrType::Bitmap, Some("$I30"@)) == Some(map),
        !ia.is_resident,
        map.is_resident,
        idx_block::index_facts(params, record, spilled) is Ok,
    ensures
        ({
            let facts = idx_block::index_facts(params, record, spilled)->Ok_0;
            let start = map.attr_offset + map.resident_value_offset->0;
            &&& data_runs::decoded(
                record.subrange(
                    ia.attr_offset + ia.non_resident_mapping_pairs_offset->0,
                    ia.attr_offset + ia.attr_length,
                ),
            ) == Ok::<Seq<DataRun>, Seq<char>>(facts.runs)
            &&& facts.data_length == ia.non_resident_value_length->0
            &&& facts.bitmap == record.subrange(start, start + map.resident_value_length->0)
        }),
{
}

/// The clusters of the master file table are as many as its bytes fill, where that
/// is inside the volume; where it is not, or nothing is known of it, none are
/// taken to be its own. A range of bytes ends with the cluster that its last byte
/// is in.
pub proof fn lemma_clusters_of_ranges(params: BootParams, at: u64, len: u64, n: int)
    requires
        params.cluster_size > 0,
        (n - 1) * params.cluster_size < len <= n * params.cluster_size,
        0 <= n <= u64::MAX,
    ensures
        bitmap::clusters_of(params, len as int) == n,
        bitmap::cluster_range(params, (at, len)) == (
            (at / params.cluster_size) as u64,
            n as u64,
        ),
        bitmap::known_mft_clusters(params, Ok((at, len))) == if params.mft_lcn + n
            <= params.capacity() {
            n
        } else {
            0
        },
        forall|m: String| #[trigger] bitmap::known_mft_clusters(params, Err(m)) == 0,
{
    let cs = params.cluster_size as int;
    let q = (len + cs - 1) / cs;
    vstd::arithmetic::div_mod::lemma_fundamental_div_mod(len + cs - 1, cs);
    vstd::arithmetic::div_mod::lemma_mod_bound(len + cs - 1, cs);
    assert(q == n) by (nonlinear_arith)
        requires
            len + cs - 1 == cs * q + (len + cs - 1) % cs,
            0 <= (len + cs - 1) % cs < cs,
            (n - 1) * cs < len <= n * cs,
            cs > 0,
    ;
}

/// Of a bitmap those bytes are counted that there are and that stand for clusters.
pub proof fn lemma_counted_bytes(bm: &BitmapLocation)
    ensures
        bitmap::counted_bytes(bm) <= bm.value_length,
        8 * bitmap::counted_bytes(bm) < bm.total_bits + 8,
        bitmap::counted_bytes(bm) == bm.value_length || 8 * bitmap::counted_bytes(bm)
            >= bm.total_bits,
{
}

/// The bitmap of an index that is kept outside the record is what was read of it.
pub proof fn lemma_spilled_bitmap(record: Seq<u8>, spilled: Vec<u8>, map: AttrLocation, m: String)
    requires
        attr_io::found_attribute(record, AttrType::Bitmap, Some("$I30"@)) == Some(map),
        !map.is_resident,
    ensures
        idx_block::declared_bitmap(record, Ok(spilled)) == Ok::<Seq<u8>, Seq<char>>(spilled@),
        idx_block::declared_bitmap(record, Err(m)) is Err,
{
}

/// Where a change of clusters is refused, it is for the first of them that is
/// already as it is to be made, and that one is named; unless the device failed.
pub proof fn lemma_the_first_in_the_way_is_named(
    bm: &BitmapLocation,
    before: spec_fn(int) -> u8,
    now: spec_fn(int) -> u8,
    lcn: int,
    n: int,
    set: bool,
    faults: Option<Faults>,
    res: Result<(), String>,
    k: int,
)
    requires
        bitmap::mutation_came_out(bm, before, now, lcn, n, set, faults, faults, res),
        faults is Some,
        0 <= lcn <= k < lcn + n <= bm.total_bits,
        bitmap::mapped(bm, lcn / 8, bitmap::byte_span(lcn, n)) is Ok,
        bitmap::allocated(before, bm, k) == set,
        forall|j: int| lcn <= j < k ==> #[trigger] bitmap::allocated(before, bm, j) != set,
    ensures
        res matches Err(m) && m@ == "cluster "@ + text::dec(k as nat) + if set {
            " already allocated"@
        } else {
            " already free"@
        },
{
    let first = lcn / 8;
    let count = bitmap::byte_span(lcn, n);
    let b = bitmap::stored_bytes(before, bm, first, count);
    assert forall|j: int| lcn <= j < lcn + n implies #[trigger] bitmap::bit_of(
        b,
        lcn % 8 + (j - lcn),
    ) == bitmap::allocated(before, bm, j) by {
        assert(0 <= j / 8 - first < count);
        assert((lcn % 8 + (j - lcn)) / 8 == j / 8 - first);
        assert((lcn % 8 + (j - lcn)) % 8 == j % 8);
        assert(b[j / 8 - first] == bitmap::stored(before, bm, j / 8));
    }
    assert(bitmap::bit_of(b, lcn % 8 + (k - lcn)) == set);
    assert forall|i: int| 0 <= i < k - lcn implies #[trigger] bitmap::bit_of(b, lcn % 8 + i) != set by {
        let j = lcn + i;
        assert(bitmap::allocated(before, bm, j) != set);
        assert(bitmap::bit_of(b, lcn % 8 + (j - lcn)) == bitmap::allocated(before, bm, j));
    }
    lemma_first_is(b, lcn % 8, 0, n, set, k - lcn);
}

proof fn lemma_first_is(b: Seq<u8>, from: int, i: int, n: int, on: bool, k: int)
    requires
        0 <= i <= k < n,
        bitmap::bit_of(b, from + k) == on,
        forall|j: int| i <= j < k ==> #[trigger] bitmap::bit_of(b, from + j) != on,
    ensures
        bitmap::first_with(b, from, i, n, on) == Some(k),
    decreases n - i,
{
    if i < k {
        assert(bitmap::bit_of(b, from + i) != on);
        lemma_first_is(b, from, i + 1, n, on, k);
    }
}

} // verus!
