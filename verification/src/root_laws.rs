//! What the removal of an entry from a directory's root undoes.

use vstd::prelude::*;

use crate::attr_io;
use crate::attr_io::AttrLocation;
use crate::attr_resize;
use crate::bytes;
use crate::index_edit;
use crate::index_edit::BlockKind;
use crate::index_io;
use crate::index_io::{
    IndexEntryLocation, IH_ALLOCATED_SIZE_OF_ENTRIES, IH_TOTAL_SIZE_OF_ENTRIES,
};
use crate::index_laws;
use crate::resize_laws;

verus! {

/// The `$INDEX_ROOT`, attribute `i` of the record, is no longer than its value
/// needs, the room of its entries is what they take, and there is nothing but
/// zero behind them, nor behind the bytes of the record that are in use.
pub open spec fn is_tidy(r: Seq<u8>, i: int) -> bool {
    let ir = attr_io::attributes(r)[i];
    let ih = index_io::root_header(ir);
    let total = index_io::total_size(r, ih);
    &&& bytes::le32(r, ih + IH_ALLOCATED_SIZE_OF_ENTRIES) == total
    &&& ir.attr_length == attr_resize::aligned8(
        ir.resident_value_offset->Some_0 + ir.resident_value_length->Some_0,
    )
    &&& forall|k: int|
        ih + total <= k < ir.attr_offset + ir.attr_length ==> #[trigger] r[k] == 0
    &&& forall|k: int| attr_resize::used(r) <= k < r.len() ==> #[trigger] r[k] == 0
}

/// Taking out an entry that was just put in closes the gap that it made: where
/// there was nothing but zero behind the entries, every byte is as it was.
proof fn lemma_gap_closes(
    t: Seq<u8>,
    ir: AttrLocation,
    loc: IndexEntryLocation,
    old_len: int,
    total: int,
    e: Seq<u8>,
)
    requires
        ({
            let start = index_io::value_start(ir);
            let ih = index_io::root_header(ir);
            &&& ih + 0x10 <= loc.record_offset <= ih + total <= start + old_len
            &&& start + old_len + e.len() <= t.len()
            &&& total + e.len() <= u32::MAX
            &&& loc.length == e.len()
            &&& index_io::total_size(t, ih) == total
            &&& bytes::le32(t, ih + IH_ALLOCATED_SIZE_OF_ENTRIES) == total
            &&& forall|k: int|
                ih + total <= k < start + old_len + e.len() ==> #[trigger] t[k] == 0
        }),
    ensures
        index_edit::spliced_out_of_root(
            index_edit::put_into_root(t, ir, loc.record_offset as int, old_len, total, e),
            loc,
            index_io::root_header(ir),
        ) == t,
{
    let start = index_io::value_start(ir);
    let ih = index_io::root_header(ir);
    let p = loc.record_offset as int;
    let n = e.len() as int;
    let s = index_edit::put_into_root(t, ir, p, old_len, total, e);
    let a = attr_resize::shifted(s, p + n, ih + total + n, p);
    let v = bytes::bytes32(total);
    let u = index_edit::spliced_out_of_root(s, loc, ih);
    index_laws::lemma_put_into_root(t, ir, p, old_len, total, e);
    bytes::lemma_bytes_of_le32(t, ih + IH_TOTAL_SIZE_OF_ENTRIES);
    bytes::lemma_bytes_of_le32(t, ih + IH_ALLOCATED_SIZE_OF_ENTRIES);
    assert(v.len() == 4);
    assert(u == bytes::patch(
        bytes::patch(a, ih + IH_TOTAL_SIZE_OF_ENTRIES, v),
        ih + IH_ALLOCATED_SIZE_OF_ENTRIES,
        v,
    ));
    lemma_put_front(t, ir, p, old_len, total, e);
    assert forall|k: int| 0 <= k < t.len() implies #[trigger] u[k] == t[k] by {
        if ih + 4 <= k < ih + 12 {
        } else if k < p {
            assert(a[k] == s[k]);
        } else if k < ih + total {
            assert(a[k] == s[k + n]);
        } else if k < ih + total + n {
            assert(a[k] == 0);
        } else if k < start + old_len + n {
            assert(a[k] == s[k]);
            assert(s[k] == t[k - n]);
        } else {
            assert(a[k] == s[k]);
        }
    }
    assert(u =~= t);
}

/// What is before the new entry is as it was, but for the two sizes.
proof fn lemma_put_front(
    t: Seq<u8>,
    ir: AttrLocation,
    p: int,
    old_len: int,
    total: int,
    e: Seq<u8>,
)
    requires
        index_io::root_header(ir) + 0x10 <= p <= t.len(),
    ensures
        ({
            let ih = index_io::root_header(ir);
            let s = index_edit::put_into_root(t, ir, p, old_len, total, e);
            forall|k: int| 0 <= k < p && !(ih + 4 <= k < ih + 12) ==> #[trigger] s[k] == t[k]
        }),
{
    let v = bytes::bytes32(total + e.len());
    assert(v.len() == 4);
}

/// The header of a directory's root, and what its location says of it.
proof fn lemma_root_fields(r: Seq<u8>, i: int)
    requires
        index_laws::is_directory(r, i),
    ensures
        ({
            let ir = attr_io::attributes(r)[i];
            let at = ir.attr_offset as int;
            &&& attr_resize::REC_OFF_BYTES_ALLOCATED + 4 <= at
            &&& attr_io::attribute_at(r, attr_resize::used(r), at)
            &&& !attr_io::non_resident_at(r, at)
            &&& attr_resize::length_at(r, at) == ir.attr_length
            &&& resize_laws::value_length_at(r, at) == ir.resident_value_length->Some_0
            &&& bytes::le16(r, at + crate::attr_off::RESIDENT_VALUE_OFFSET)
                == ir.resident_value_offset->Some_0
        }),
{
    let first = attr_io::attrs_start(r);
    let ir = attr_io::attributes(r)[i];
    attr_io::lemma_walk_comes_to(r, attr_resize::used(r), first, i);
    attr_io::lemma_reaches_forward(r, attr_resize::used(r), first, ir.attr_offset as int);
}

/// An entry that was put into a directory's `$INDEX_ROOT` is found there by its
/// name, can be taken out, and leaves the record as it was, byte for byte. Where
/// no other entry has the name, it is then not found any more.
pub proof fn lemma_root_insert_then_remove(
    r: Seq<u8>,
    i: int,
    list: Seq<Seq<u8>>,
    e: Seq<u8>,
    table: Option<Seq<u16>>,
)
    requires
        index_laws::is_entry(e),
        !index_io::has_child(e, 0),
        index_laws::root_holds(r, i, list),
        is_tidy(r, i),
        index_edit::insert_root_defined(r, e, index_laws::name_of(e), table),
        index_edit::inserted_in_root(r, e, index_laws::name_of(e), table).1 is Ok,
    ensures
        ({
            let s = index_edit::inserted_in_root(r, e, index_laws::name_of(e), table).0;
            match index_io::found_in_root(s, index_laws::name_of(e), table) {
                Ok(Some(loc)) => {
                    &&& index_edit::remove_defined(s, loc, BlockKind::IndexRoot)
                    &&& index_edit::removed(s, loc, BlockKind::IndexRoot) == (
                        r,
                        Ok::<(), Seq<char>>(()),
                    )
                },
                _ => false,
            }
        }),
        index_laws::first_named(list, 0, index_laws::name_of(e), table) is None
            ==> index_io::found_in_root(r, index_laws::name_of(e), table) == Ok::<
            Option<IndexEntryLocation>,
            Seq<char>,
        >(None),
{
    let new = index_laws::name_of(e);
    let ir = attr_io::attributes(r)[i];
    let at = ir.attr_offset as int;
    let ih = index_io::root_header(ir);
    let total = index_io::total_size(r, ih);
    let old_len = ir.resident_value_length->Some_0 as int;
    let rank = index_laws::rank_from(list, 0, new, table);
    let first = ih + index_io::first_entry(r, ih);
    let p = first + index_laws::offset_of(list, rank);
    let n = (old_len + e.len()) as u32;
    let t = attr_resize::resized(r, at, n as int)->Ok_0;
    let s = index_edit::inserted_in_root(r, e, new, table).0;
    let ir2 = attr_io::attributes(t)[i];
    index_laws::lemma_root_search(r, i, list, new, table);
    index_laws::lemma_root_insert_steps(r, i, list, e, table);
    index_laws::lemma_directory_root(r, i);
    index_laws::lemma_directory_resized(r, i, n);
    index_laws::lemma_inserted_is_found(r, i, list, e, table);
    lemma_inserted_at(r, i, list, e, table);
    lemma_same_offset(list, e, rank);
    let loc = index_laws::located(list.insert(rank, e), first, rank);
    assert(loc.record_offset == p && loc.length == e.len());
    lemma_root_fields(r, i);
    lemma_grown_tail(r, i, n);
    lemma_gap_closes(t, ir2, loc, old_len, total, e);
    resize_laws::lemma_shrink_undoes_growth(r, at, n as int);
    index_laws::lemma_directory_root(s, i);
    index_laws::lemma_directory_root(t, i);
    lemma_removal_is(s, t, r, ir2, loc, old_len);
}

/// What an insertion leaves: the attributes of the grown record, and the entry at
/// its place.
proof fn lemma_inserted_at(
    r: Seq<u8>,
    i: int,
    list: Seq<Seq<u8>>,
    e: Seq<u8>,
    table: Option<Seq<u16>>,
)
    requires
        index_laws::is_entry(e),
        index_laws::root_holds(r, i, list),
        index_edit::insert_root_defined(r, e, index_laws::name_of(e), table),
        index_edit::inserted_in_root(r, e, index_laws::name_of(e), table).1 is Ok,
    ensures
        ({
            let new = index_laws::name_of(e);
            let ir = attr_io::attributes(r)[i];
            let ih = index_io::root_header(ir);
            let n = ir.resident_value_length->Some_0 + e.len();
            let rank = index_laws::rank_from(list, 0, new, table);
            let p = ih + index_io::first_entry(r, ih) + index_laws::offset_of(list, rank);
            let t = attr_resize::resized(r, ir.attr_offset as int, n)->Ok_0;
            let s = index_edit::inserted_in_root(r, e, new, table).0;
            &&& index_laws::is_directory(s, i)
            &&& index_laws::is_directory(t, i)
            &&& s.len() == r.len()
            &&& attr_io::attributes(s) == attr_io::attributes(t)
            &&& index_io::first_entry(s, ih) == index_io::first_entry(r, ih)
            &&& index_io::total_size(s, ih) == index_io::total_size(r, ih) + e.len()
            &&& p + e.len() <= s.len()
            &&& index_io::has_child(s, p) == index_io::has_child(e, 0)
        }),
{
    let new = index_laws::name_of(e);
    let ir = attr_io::attributes(r)[i];
    let at = ir.attr_offset as int;
    let ih = index_io::root_header(ir);
    let total = index_io::total_size(r, ih);
    let old_len = ir.resident_value_length->Some_0 as int;
    let rank = index_laws::rank_from(list, 0, new, table);
    let first = ih + index_io::first_entry(r, ih);
    let p = first + index_laws::offset_of(list, rank);
    let n = (old_len + e.len()) as u32;
    let t = attr_resize::resized(r, at, n as int)->Ok_0;
    let s = index_edit::inserted_in_root(r, e, new, table).0;
    let ir2 = attr_io::attributes(t)[i];
    let longer = list.insert(rank, e);
    index_laws::lemma_root_insert_steps(r, i, list, e, table);
    index_laws::lemma_directory_root(r, i);
    index_laws::lemma_directory_resized(r, i, n);
    index_laws::lemma_put_into_root(t, ir2, p, old_len, total, e);
    index_laws::lemma_root_insert_ends(r, t, s, i, list, e, rank);
    assert(index_io::first_entry(t, ih) == index_io::first_entry(r, ih));
    lemma_same_offset(list, e, rank);
    assert(longer[rank] == e);
    assert(index_laws::entry_stands(s, first, longer, rank));
    index_laws::lemma_entry_in_place(s, p, e);
}

/// A removal that closes the gap and shortens the value again.
proof fn lemma_removal_is(
    s: Seq<u8>,
    t: Seq<u8>,
    r: Seq<u8>,
    ir: AttrLocation,
    loc: IndexEntryLocation,
    old_len: int,
)
    requires
        index_io::index_root(s) == Some(ir),
        index_io::index_root(t) == Some(ir),
        ir.is_resident,
        attr_io::within_record(ir, s),
        ({
            let ih = index_io::root_header(ir);
            &&& 0 <= old_len
            &&& ir.resident_value_length->Some_0 == old_len + loc.length
            &&& ih + 0x10 <= loc.record_offset
            &&& loc.length >= 0x10
            &&& loc.record_offset + loc.length <= ih + index_io::total_size(s, ih)
            &&& ih + index_io::total_size(s, ih) <= index_io::value_end(ir)
            &&& !index_io::has_child(s, loc.record_offset as int)
            &&& index_edit::spliced_out_of_root(s, loc, ih) == t
            &&& attr_resize::resize_defined(t, ir.attr_offset as int, old_len)
            &&& attr_resize::resized(t, ir.attr_offset as int, old_len) == Ok::<
                Seq<u8>,
                Seq<char>,
            >(r)
        }),
    ensures
        index_edit::remove_defined(s, loc, BlockKind::IndexRoot),
        index_edit::removed(s, loc, BlockKind::IndexRoot) == (r, Ok::<(), Seq<char>>(())),
{
    let ih = index_io::root_header(ir);
    let bounds = (ih, index_io::value_end(ir));
    assert(ih <= bounds.1 <= s.len());
    assert(index_edit::node_bounds(s, BlockKind::IndexRoot) == Ok::<(int, int), Seq<char>>(bounds));
    assert(index_edit::entry_inside(s, loc, ih, bounds.1));
    assert(index_edit::shortened(ir, loc.length as int) == old_len);
}

/// The offset of an entry put in at `rank` is that of the one that was there.
proof fn lemma_same_offset(list: Seq<Seq<u8>>, e: Seq<u8>, rank: int)
    requires
        0 <= rank <= list.len(),
    ensures
        index_laws::offset_of(list.insert(rank, e), rank) == index_laws::offset_of(list, rank),
{
    lemma_same_offset_up_to(list, e, rank, rank);
}

proof fn lemma_same_offset_up_to(list: Seq<Seq<u8>>, e: Seq<u8>, rank: int, k: int)
    requires
        0 <= k <= rank <= list.len(),
    ensures
        index_laws::offset_of(list.insert(rank, e), k) == index_laws::offset_of(list, k),
    decreases k,
{
    if k > 0 {
        lemma_same_offset_up_to(list, e, rank, k - 1);
        assert(list.insert(rank, e)[k - 1] == list[k - 1]);
    }
}

/// A tidy root that grew has the same sizes in its header, and nothing but zero
/// behind its entries.
proof fn lemma_grown_tail(r: Seq<u8>, i: int, n: u32)
    requires
        index_laws::is_directory(r, i),
        is_tidy(r, i),
        ({
            let ir = attr_io::attributes(r)[i];
            let ih = index_io::root_header(ir);
            &&& ih + 0x10 <= ih + index_io::total_size(r, ih) <= index_io::value_end(ir)
            &&& ir.resident_value_length->Some_0 <= n
            &&& attr_resize::resize_defined(r, ir.attr_offset as int, n as int)
            &&& attr_resize::resized(r, ir.attr_offset as int, n as int) is Ok
        }),
    ensures
        ({
            let ir = attr_io::attributes(r)[i];
            let ih = index_io::root_header(ir);
            let total = index_io::total_size(r, ih);
            let t = attr_resize::resized(r, ir.attr_offset as int, n as int)->Ok_0;
            &&& index_io::total_size(t, ih) == total
            &&& bytes::le32(t, ih + IH_ALLOCATED_SIZE_OF_ENTRIES) == total
            &&& forall|k: int|
                ih + total <= k < index_io::value_start(ir) + n ==> #[trigger] t[k] == 0
        }),
{
    let ir = attr_io::attributes(r)[i];
    let at = ir.attr_offset as int;
    let ih = index_io::root_header(ir);
    let total = index_io::total_size(r, ih);
    let t = attr_resize::resized(r, at, n as int)->Ok_0;
    lemma_root_fields(r, i);
    index_laws::lemma_directory_root(r, i);
    let offset = ir.resident_value_offset->Some_0 as int;
    assert(attr_resize::length_for_value(r, at, n as int) == attr_resize::aligned8(offset + n));
    lemma_room(offset, ir.resident_value_length->Some_0 as int, n as int);
    assert(at + ir.attr_length <= attr_resize::used(r) <= r.len());
    resize_laws::lemma_grown_body(r, at, n as int);
    lemma_header_kept(r, t, ih);
    assert forall|k: int|
        ih + total <= k < index_io::value_start(ir) + n implies #[trigger] t[k] == 0 by {
        if k < at + ir.attr_length {
            assert(t[k] == r[k]);
        }
    }
}

proof fn lemma_room(offset: int, old_len: int, n: int)
    requires
        0 <= old_len <= n,
        0 <= offset,
    ensures
        attr_resize::aligned8(offset + old_len) <= attr_resize::aligned8(offset + n),
        offset + n <= attr_resize::aligned8(offset + n),
{
}

proof fn lemma_header_kept(r: Seq<u8>, t: Seq<u8>, ih: int)
    requires
        forall|k: int| ih <= k < ih + 0x10 ==> #[trigger] t[k] == r[k],
    ensures
        index_io::total_size(t, ih) == index_io::total_size(r, ih),
        bytes::le32(t, ih + IH_ALLOCATED_SIZE_OF_ENTRIES) == bytes::le32(
            r,
            ih + IH_ALLOCATED_SIZE_OF_ENTRIES,
        ),
{
    assert(t[ih + 4] == r[ih + 4] && t[ih + 5] == r[ih + 5] && t[ih + 6] == r[ih + 6]);
    assert(t[ih + 7] == r[ih + 7] && t[ih + 8] == r[ih + 8] && t[ih + 9] == r[ih + 9]);
    assert(t[ih + 10] == r[ih + 10] && t[ih + 11] == r[ih + 11]);
}

} // verus!
