//! What the functions on index entries do to a node as a list of entries.

use vstd::prelude::*;

use crate::attr_io;
use crate::attr_io::{AttrLocation, AttrType};
use crate::attr_resize;
use crate::bytes;
use crate::index_edit;
use crate::index_io;
use crate::index_io::{
    IndexEntryLocation, FN_NAME_LENGTH_OFFSET, FN_NAME_OFFSET, IE_FILE_REFERENCE, IE_FLAGS,
    IE_KEY_START, IH_ALLOCATED_SIZE_OF_ENTRIES, IH_TOTAL_SIZE_OF_ENTRIES, INDX_INDEX_HEADER_OFFSET,
};
use crate::names;

verus! {

/// The bytes of an entry that names a file: it is as long as it says, is not
/// marked as the last, and has a key with a name inside it.
pub open spec fn is_entry(x: Seq<u8>) -> bool {
    &&& x.len() >= IE_KEY_START + FN_NAME_OFFSET
    &&& index_io::entry_length(x, 0) == x.len()
    &&& !index_io::is_last(x, 0)
    &&& index_io::key_length(x, 0) >= FN_NAME_OFFSET
    &&& IE_KEY_START + FN_NAME_OFFSET + 2 * x[IE_KEY_START + FN_NAME_LENGTH_OFFSET] <= x.len()
}

/// The name in an entry.
pub open spec fn name_of(x: Seq<u8>) -> Seq<u16> {
    attr_io::units_at(
        x,
        IE_KEY_START + FN_NAME_OFFSET,
        x[IE_KEY_START + FN_NAME_LENGTH_OFFSET] as int,
    )
}

/// The file reference in an entry.
pub open spec fn reference_of(x: Seq<u8>) -> int {
    bytes::le64(x, IE_FILE_REFERENCE as int)
}

/// The bytes that the first `k` entries take.
pub open spec fn offset_of(list: Seq<Seq<u8>>, k: int) -> int
    decreases k,
{
    if k <= 0 {
        0
    } else {
        offset_of(list, k - 1) + list[k - 1].len()
    }
}

/// `x` stands at `at`.
pub open spec fn stands_at(b: Seq<u8>, at: int, x: Seq<u8>) -> bool {
    &&& 0 <= at
    &&& at + x.len() <= b.len()
    &&& b.subrange(at, at + x.len()) == x
}

/// Entry `k` of `list` is one, and stands behind those before it.
pub open spec fn entry_stands(b: Seq<u8>, at: int, list: Seq<Seq<u8>>, k: int) -> bool {
    &&& is_entry(list[k])
    &&& stands_at(b, at + offset_of(list, k), list[k])
}

/// From `at` on, `b` holds the entries of `list` one behind the other, and then
/// one that is marked as the last, all before `end`.
pub open spec fn holds(b: Seq<u8>, at: int, end: int, list: Seq<Seq<u8>>) -> bool {
    let stop = at + offset_of(list, list.len() as int);
    &&& 0 <= at
    &&& forall|k: int| 0 <= k < list.len() ==> #[trigger] entry_stands(b, at, list, k)
    &&& stop + IE_KEY_START <= end <= b.len()
    &&& index_io::is_last(b, stop)
}

/// Names stand in order, each once.
pub open spec fn in_order(list: Seq<Seq<u8>>, table: Option<Seq<u16>>) -> bool {
    forall|i: int, j: int|
        0 <= i < j < list.len() ==> names::order(
            name_of(#[trigger] list[i]),
            name_of(#[trigger] list[j]),
            table,
        ) < 0
}

pub(crate) proof fn lemma_offsets_grow(list: Seq<Seq<u8>>, i: int, j: int)
    requires
        0 <= i <= j <= list.len(),
    ensures
        0 <= offset_of(list, i) <= offset_of(list, j),
        i < j ==> offset_of(list, i) + list[i].len() <= offset_of(list, j),
    decreases j,
{
    if i < j {
        lemma_offsets_grow(list, i, j - 1);
    } else if i > 0 {
        lemma_offsets_grow(list, i - 1, j - 1);
    }
}

/// An entry says the same of itself wherever it stands.
pub(crate) proof fn lemma_entry_in_place(b: Seq<u8>, at: int, x: Seq<u8>)
    requires
        stands_at(b, at, x),
        is_entry(x),
    ensures
        index_io::entry_length(b, at) == x.len(),
        !index_io::is_last(b, at),
        index_io::key_length(b, at) == index_io::key_length(x, 0),
        index_io::has_child(b, at) == index_io::has_child(x, 0),
        bytes::le64(b, at + IE_FILE_REFERENCE) == reference_of(x),
        index_io::name_in_entry(b, at, x.len() as int) == Ok::<Seq<u16>, Seq<char>>(name_of(x)),
{
    let y = b.subrange(at, at + x.len());
    assert forall|i: int| 0 <= i < x.len() implies b[at + i] == #[trigger] x[i] by {
        assert(y[i] == b[at + i]);
    }
    assert(b[at + 8] == x[8] && b[at + 9] == x[9]);
    assert(b[at + 10] == x[10] && b[at + 11] == x[11]);
    assert(b[at + 12] == x[12] && b[at + 13] == x[13]);
    let n = x[IE_KEY_START + FN_NAME_LENGTH_OFFSET] as int;
    let start = IE_KEY_START + FN_NAME_OFFSET;
    assert(b[at + (IE_KEY_START + FN_NAME_LENGTH_OFFSET)] == n);
    assert forall|i: int| 0 <= i < n implies #[trigger] attr_io::units_at(b, at + start, n)[i]
        == attr_io::units_at(x, start, n)[i] by {
        assert(b[at + (start + 2 * i)] == x[start + 2 * i]);
        assert(b[at + (start + 2 * i + 1)] == x[start + 2 * i + 1]);
    }
    assert(attr_io::units_at(b, at + start, n) =~= attr_io::units_at(x, start, n));
    assert(bytes::le32(b, at) == bytes::le32(x, 0)) by {
        assert(b[at + 0] == x[0] && b[at + 1] == x[1] && b[at + 2] == x[2] && b[at + 3] == x[3]);
    }
    assert(bytes::le32(b, at + 4) == bytes::le32(x, 4)) by {
        assert(b[at + 4] == x[4] && b[at + 5] == x[5] && b[at + 6] == x[6] && b[at + 7] == x[7]);
    }
}

/// The first entry of `list` from `k` on whose name is `wanted`.
pub open spec fn first_named(
    list: Seq<Seq<u8>>,
    k: int,
    wanted: Seq<u16>,
    table: Option<Seq<u16>>,
) -> Option<int>
    decreases list.len() - k,
{
    if k < 0 || k >= list.len() {
        None
    } else if names::same(name_of(list[k]), wanted, table) {
        Some(k)
    } else {
        first_named(list, k + 1, wanted, table)
    }
}

/// Where entry `k` of `list` is, and what it says, in a node whose first entry
/// is at `at`.
pub open spec fn located(list: Seq<Seq<u8>>, at: int, k: int) -> IndexEntryLocation {
    let x = list[k];
    IndexEntryLocation {
        record_offset: (at + offset_of(list, k)) as usize,
        length: x.len() as usize,
        key_length: index_io::key_length(x, 0) as usize,
        file_record_number: index_io::record_number(reference_of(x)) as u64,
        sequence: index_io::sequence_number(reference_of(x)) as u16,
        name_length: name_of(x).len() as u8,
    }
}

proof fn lemma_found_from(
    b: Seq<u8>,
    at: int,
    end: int,
    limit: int,
    list: Seq<Seq<u8>>,
    k: int,
    wanted: Seq<u16>,
    table: Option<Seq<u16>>,
)
    requires
        holds(b, at, end, list),
        end <= limit,
        0 <= k <= list.len(),
    ensures
        index_io::found_from(b, at + offset_of(list, k), end, limit, wanted, table) == (
        match first_named(list, k, wanted, table) {
            Some(i) => Ok::<Option<IndexEntryLocation>, Seq<char>>(Some(located(list, at, i))),
            None => Ok(None),
        }),
    decreases list.len() - k,
{
    lemma_offsets_grow(list, k, list.len() as int);
    if k < list.len() {
        let p = at + offset_of(list, k);
        lemma_offsets_grow(list, k + 1, list.len() as int);
        assert(entry_stands(b, at, list, k));
        lemma_entry_in_place(b, p, list[k]);
        lemma_found_from(b, at, end, limit, list, k + 1, wanted, table);
    }
}

/// A search finds the first entry of the node that has the name, and nothing
/// where none has.
pub proof fn lemma_search_finds_first(
    b: Seq<u8>,
    at: int,
    end: int,
    limit: int,
    list: Seq<Seq<u8>>,
    wanted: Seq<u16>,
    table: Option<Seq<u16>>,
)
    requires
        holds(b, at, end, list),
        end <= limit,
    ensures
        index_io::found_from(b, at, end, limit, wanted, table) == (match first_named(
            list,
            0,
            wanted,
            table,
        ) {
            Some(i) => Ok::<Option<IndexEntryLocation>, Seq<char>>(Some(located(list, at, i))),
            None => Ok(None),
        }),
{
    lemma_found_from(b, at, end, limit, list, 0, wanted, table);
}

/// The number of entries of `list`, from `k` on, that a new name comes behind
/// before the first that it does not.
pub open spec fn rank_from(
    list: Seq<Seq<u8>>,
    k: int,
    new: Seq<u16>,
    table: Option<Seq<u16>>,
) -> int
    decreases list.len() - k,
{
    if k < 0 || k >= list.len() || names::order(new, name_of(list[k]), table) <= 0 {
        k
    } else {
        rank_from(list, k + 1, new, table)
    }
}

proof fn lemma_rank(list: Seq<Seq<u8>>, k: int, new: Seq<u16>, table: Option<Seq<u16>>)
    requires
        0 <= k <= list.len(),
    ensures
        ({
            let r = rank_from(list, k, new, table);
            &&& k <= r <= list.len()
            &&& forall|i: int|
                k <= i < r ==> names::order(new, name_of(#[trigger] list[i]), table) > 0
            &&& r < list.len() ==> names::order(new, name_of(list[r]), table) <= 0
        }),
    decreases list.len() - k,
{
    if k < list.len() && names::order(new, name_of(list[k]), table) > 0 {
        lemma_rank(list, k + 1, new, table);
    }
}

proof fn lemma_place_from(
    b: Seq<u8>,
    at: int,
    end: int,
    list: Seq<Seq<u8>>,
    k: int,
    new: Seq<u16>,
    table: Option<Seq<u16>>,
    malformed: Seq<char>,
)
    requires
        holds(b, at, end, list),
        0 <= k <= list.len(),
    ensures
        index_edit::place_from(b, at + offset_of(list, k), end, new, table, malformed) == Ok::<
            int,
            Seq<char>,
        >(at + offset_of(list, rank_from(list, k, new, table))),
    decreases list.len() - k,
{
    lemma_offsets_grow(list, k, list.len() as int);
    if k < list.len() {
        let p = at + offset_of(list, k);
        lemma_offsets_grow(list, k + 1, list.len() as int);
        assert(entry_stands(b, at, list, k));
        lemma_entry_in_place(b, p, list[k]);
        lemma_place_from(b, at, end, list, k + 1, new, table, malformed);
    }
}

/// Offsets in a list with one entry more.
proof fn lemma_offset_of_insert(list: Seq<Seq<u8>>, r: int, e: Seq<u8>, k: int)
    requires
        0 <= r <= list.len(),
        0 <= k <= list.len() + 1,
    ensures
        offset_of(list.insert(r, e), k) == if k <= r {
            offset_of(list, k)
        } else {
            offset_of(list, k - 1) + e.len()
        },
    decreases k,
{
    if k > 0 {
        lemma_offset_of_insert(list, r, e, k - 1);
    }
}

/// Offsets in a list with one entry less.
proof fn lemma_offset_of_remove(list: Seq<Seq<u8>>, r: int, k: int)
    requires
        0 <= r < list.len(),
        0 <= k <= list.len() - 1,
    ensures
        offset_of(list.remove(r), k) == if k <= r {
            offset_of(list, k)
        } else {
            offset_of(list, k + 1) - list[r].len()
        },
    decreases k,
{
    if k > 0 {
        lemma_offset_of_remove(list, r, k - 1);
        assert(list.remove(r)[k - 1] == if k - 1 < r {
            list[k - 1]
        } else {
            list[k]
        });
    }
}

/// `s` is `b` with `e` put in at `p`, as far as the entries go.
pub open spec fn opened_at(b: Seq<u8>, s: Seq<u8>, at: int, end: int, p: int, e: Seq<u8>) -> bool {
    &&& at <= p <= end
    &&& end + e.len() <= s.len()
    &&& forall|i: int| at <= i < p ==> #[trigger] s[i] == b[i]
    &&& forall|i: int| p <= i < p + e.len() ==> #[trigger] s[i] == e[i - p]
    &&& forall|i: int| p + e.len() <= i < end + e.len() ==> #[trigger] s[i] == b[i - e.len()]
}

/// A node with an entry put in holds the longer list.
proof fn lemma_holds_inserted(
    b: Seq<u8>,
    s: Seq<u8>,
    at: int,
    end: int,
    list: Seq<Seq<u8>>,
    r: int,
    e: Seq<u8>,
)
    requires
        holds(b, at, end, list),
        is_entry(e),
        0 <= r <= list.len(),
        opened_at(b, s, at, end, at + offset_of(list, r), e),
    ensures
        holds(s, at, end + e.len(), list.insert(r, e)),
{
    let longer = list.insert(r, e);
    let n = list.len() as int;
    let p = at + offset_of(list, r);
    lemma_offsets_grow(list, 0, r);
    lemma_offsets_grow(list, r, n);
    lemma_offset_of_insert(list, r, e, n + 1);
    let stop = at + offset_of(list, n);
    assert(at + offset_of(longer, n + 1) == stop + e.len());
    assert(index_io::is_last(s, stop + e.len())) by {
        assert(s[stop + e.len() + IE_FLAGS] == b[stop + IE_FLAGS]);
        assert(s[stop + e.len() + IE_FLAGS + 1] == b[stop + IE_FLAGS + 1]);
    }
    assert forall|k: int| 0 <= k < longer.len() implies #[trigger] entry_stands(
        s,
        at,
        longer,
        k,
    ) by {
        lemma_inserted_entry(b, s, at, end, list, r, e, k);
    }
}

/// An entry stands wherever its bytes have moved.
proof fn lemma_stands_moved(b: Seq<u8>, from: int, s: Seq<u8>, to: int, x: Seq<u8>)
    requires
        stands_at(b, from, x),
        0 <= to,
        to + x.len() <= s.len(),
        forall|i: int| to <= i < to + x.len() ==> #[trigger] s[i] == b[i - to + from],
    ensures
        stands_at(s, to, x),
{
    assert forall|i: int| 0 <= i < x.len() implies s[to + i] == #[trigger] x[i] by {
        assert(b.subrange(from, from + x.len())[i] == b[from + i]);
    }
    assert(s.subrange(to, to + x.len()) =~= x);
}

proof fn lemma_inserted_entry(
    b: Seq<u8>,
    s: Seq<u8>,
    at: int,
    end: int,
    list: Seq<Seq<u8>>,
    r: int,
    e: Seq<u8>,
    k: int,
)
    requires
        holds(b, at, end, list),
        is_entry(e),
        0 <= r <= list.len(),
        0 <= k <= list.len(),
        opened_at(b, s, at, end, at + offset_of(list, r), e),
    ensures
        entry_stands(s, at, list.insert(r, e), k),
{
    let n = list.len() as int;
    lemma_offset_of_insert(list, r, e, k);
    lemma_offsets_grow(list, 0, r);
    lemma_offsets_grow(list, r, n);
    let q = at + offset_of(list.insert(r, e), k);
    if k < r {
        lemma_offsets_grow(list, k, r);
        lemma_offsets_grow(list, 0, k);
        assert(entry_stands(b, at, list, k));
        lemma_stands_moved(b, q, s, q, list[k]);
    } else if k == r {
        assert(s.subrange(q, q + e.len()) =~= e);
    } else {
        let w = at + offset_of(list, k - 1);
        lemma_offsets_grow(list, r, k - 1);
        lemma_offsets_grow(list, k - 1, n);
        assert(entry_stands(b, at, list, k - 1));
        lemma_stands_moved(b, w, s, q, list[k - 1]);
    }
}

/// `s` is `b` without the `n` bytes at `p`, as far as the entries go.
pub open spec fn closed_at(b: Seq<u8>, s: Seq<u8>, at: int, end: int, p: int, n: int) -> bool {
    &&& at <= p
    &&& p + n <= end
    &&& end - n <= s.len()
    &&& forall|i: int| at <= i < p ==> #[trigger] s[i] == b[i]
    &&& forall|i: int| p <= i < end - n ==> #[trigger] s[i] == b[i + n]
}

/// A node with an entry taken out holds the shorter list.
proof fn lemma_holds_removed(b: Seq<u8>, s: Seq<u8>, at: int, end: int, list: Seq<Seq<u8>>, r: int)
    requires
        holds(b, at, end, list),
        0 <= r < list.len(),
        closed_at(b, s, at, end, at + offset_of(list, r), list[r].len() as int),
    ensures
        holds(s, at, end - list[r].len(), list.remove(r)),
{
    let shorter = list.remove(r);
    let n = list.len() as int;
    let p = at + offset_of(list, r);
    let gone = list[r].len() as int;
    lemma_offsets_grow(list, 0, r);
    lemma_offsets_grow(list, r, n);
    lemma_offset_of_remove(list, r, n - 1);
    let stop = at + offset_of(list, n);
    lemma_offsets_grow(list, r + 1, n);
    assert(at + offset_of(shorter, n - 1) == stop - gone);
    assert(index_io::is_last(s, stop - gone)) by {
        assert(s[stop - gone + IE_FLAGS] == b[stop + IE_FLAGS]);
        assert(s[stop - gone + IE_FLAGS + 1] == b[stop + IE_FLAGS + 1]);
    }
    assert forall|k: int| 0 <= k < shorter.len() implies #[trigger] entry_stands(
        s,
        at,
        shorter,
        k,
    ) by {
        lemma_removed_entry(b, s, at, end, list, r, k);
    }
}

proof fn lemma_removed_entry(
    b: Seq<u8>,
    s: Seq<u8>,
    at: int,
    end: int,
    list: Seq<Seq<u8>>,
    r: int,
    k: int,
)
    requires
        holds(b, at, end, list),
        0 <= r < list.len(),
        0 <= k < list.len() - 1,
        closed_at(b, s, at, end, at + offset_of(list, r), list[r].len() as int),
    ensures
        entry_stands(s, at, list.remove(r), k),
{
    let n = list.len() as int;
    lemma_offset_of_remove(list, r, k);
    lemma_offsets_grow(list, 0, r);
    let q = at + offset_of(list.remove(r), k);
    if k < r {
        lemma_offsets_grow(list, k, r);
        lemma_offsets_grow(list, 0, k);
        assert(list.remove(r)[k] == list[k]);
        assert(entry_stands(b, at, list, k));
        lemma_stands_moved(b, q, s, q, list[k]);
    } else {
        let w = at + offset_of(list, k + 1);
        lemma_offsets_grow(list, r, k + 1);
        lemma_offsets_grow(list, k + 1, n);
        assert(list.remove(r)[k] == list[k + 1]);
        assert(entry_stands(b, at, list, k + 1));
        lemma_stands_moved(b, w, s, q, list[k + 1]);
    }
}

/// Putting an entry into a node of an INDX block makes it one of the node's
/// entries, at its rank by name: what it comes behind is before it, and what is
/// behind it, it does not come behind. The others stay, in their order.
pub proof fn lemma_block_insert(
    b: Seq<u8>,
    list: Seq<Seq<u8>>,
    e: Seq<u8>,
    table: Option<Seq<u16>>,
)
    requires
        is_entry(e),
        index_edit::insert_block_defined(b, e, name_of(e), table),
        index_edit::inserted_in_block(b, e, name_of(e), table) is Ok,
        block_holds(b, list),
    ensures
        ({
            let s = index_edit::inserted_in_block(b, e, name_of(e), table)->Ok_0;
            let r = rank_from(list, 0, name_of(e), table);
            &&& 0 <= r <= list.len()
            &&& forall|i: int|
                0 <= i < r ==> names::order(name_of(e), name_of(#[trigger] list[i]), table) > 0
            &&& r < list.len() ==> names::order(name_of(e), name_of(list[r]), table) <= 0
            &&& block_holds(s, list.insert(r, e))
        }),
{
    let ih = INDX_INDEX_HEADER_OFFSET as int;
    let first = index_io::first_entry(b, ih);
    let total = index_io::total_size(b, ih);
    let at = ih + first;
    let end = ih + total;
    let s = index_edit::inserted_in_block(b, e, name_of(e), table)->Ok_0;
    let r = rank_from(list, 0, name_of(e), table);
    lemma_rank(list, 0, name_of(e), table);
    lemma_place_from(
        b,
        at,
        end,
        list,
        0,
        name_of(e),
        table,
        "malformed INDX entry during insert"@,
    );
    let p = at + offset_of(list, r);
    lemma_offsets_grow(list, 0, r);
    lemma_offsets_grow(list, r, list.len() as int);
    lemma_block_splice(b, p, total, e);
    lemma_holds_inserted(b, s, at, end, list, r, e);
}

/// The block is an INDX block whose node holds the entries of `list`.
pub open spec fn block_holds(b: Seq<u8>, list: Seq<Seq<u8>>) -> bool {
    let ih = INDX_INDEX_HEADER_OFFSET as int;
    &&& index_io::is_indx(b)
    &&& b.len() >= ih + 0x10
    &&& b.len() <= usize::MAX
    &&& index_io::first_entry(b, ih) >= 0x10
    &&& holds(b, ih + index_io::first_entry(b, ih), ih + index_io::total_size(b, ih), list)
}

proof fn lemma_block_splice(b: Seq<u8>, p: int, total: int, e: Seq<u8>)
    requires
        ({
            let ih = INDX_INDEX_HEADER_OFFSET as int;
            &&& ih + 0x10 <= p <= ih + total
            &&& ih + total + e.len() <= b.len()
            &&& total + e.len() <= u32::MAX
        }),
    ensures
        ({
            let ih = INDX_INDEX_HEADER_OFFSET as int;
            let s = bytes::patch(
                index_edit::spliced_in(b, p, ih + total, e),
                ih + IH_TOTAL_SIZE_OF_ENTRIES,
                bytes::bytes32(total + e.len()),
            );
            &&& s.len() == b.len()
            &&& index_io::total_size(s, ih) == total + e.len()
            &&& index_io::first_entry(s, ih) == index_io::first_entry(b, ih)
            &&& index_io::is_indx(s) == index_io::is_indx(b)
            &&& forall|at: int|
                ih + 0x10 <= at <= p ==> #[trigger] opened_at(b, s, at, ih + total, p, e)
        }),
{
    let ih = INDX_INDEX_HEADER_OFFSET as int;
    let m = index_edit::spliced_in(b, p, ih + total, e);
    let s = bytes::patch(m, ih + IH_TOTAL_SIZE_OF_ENTRIES, bytes::bytes32(total + e.len()));
    assert(bytes::bytes32(total + e.len()).len() == 4);
    bytes::lemma_le32_of_patch(m, ih + IH_TOTAL_SIZE_OF_ENTRIES, total + e.len());
    assert forall|at: int| ih + 0x10 <= at <= p implies #[trigger] opened_at(
        b,
        s,
        at,
        ih + total,
        p,
        e,
    ) by {
        assert forall|i: int| at <= i < s.len() implies #[trigger] s[i] == m[i] by {}
    }
}

/// Entries that were in order, each name once, are so after a new name was put
/// in.
pub proof fn lemma_insert_keeps_names_in_order(
    list: Seq<Seq<u8>>,
    e: Seq<u8>,
    table: Option<Seq<u16>>,
)
    requires
        in_order(list, table),
        first_named(list, 0, name_of(e), table) is None,
    ensures
        in_order(list.insert(rank_from(list, 0, name_of(e), table), e), table),
{
    let new = name_of(e);
    let r = rank_from(list, 0, new, table);
    let longer = list.insert(r, e);
    lemma_rank(list, 0, new, table);
    lemma_first_named(list, 0, new, table);
    assert forall|i: int, j: int| 0 <= i < j < longer.len() implies names::order(
        name_of(#[trigger] longer[i]),
        name_of(#[trigger] longer[j]),
        table,
    ) < 0 by {
        if i < r {
            assert(longer[i] == list[i]);
            names::lemma_order_is_total(new, name_of(list[i]), new, table);
        } else if i > r {
            assert(longer[i] == list[i - 1]);
        }
        if j < r {
            assert(longer[j] == list[j]);
        } else if j > r {
            assert(longer[j] == list[j - 1]);
        }
        if i == r {
            assert(names::order(new, name_of(list[r]), table) <= 0);
            names::lemma_order_is_total(new, name_of(list[r]), name_of(list[j - 1]), table);
            names::lemma_order_is_total(name_of(list[r]), new, new, table);
            assert(!names::same(name_of(list[r]), new, table));
        }
    }
}

/// What `first_named` gives is the first entry with the name.
proof fn lemma_first_named(
    list: Seq<Seq<u8>>,
    k: int,
    wanted: Seq<u16>,
    table: Option<Seq<u16>>,
)
    requires
        0 <= k <= list.len(),
    ensures
        match first_named(list, k, wanted, table) {
            Some(i) => {
                &&& k <= i < list.len()
                &&& names::same(name_of(list[i]), wanted, table)
                &&& forall|j: int|
                    k <= j < i ==> !names::same(name_of(#[trigger] list[j]), wanted, table)
            },
            None => forall|j: int|
                k <= j < list.len() ==> !names::same(name_of(#[trigger] list[j]), wanted, table),
        },
    decreases list.len() - k,
{
    if k < list.len() && !names::same(name_of(list[k]), wanted, table) {
        lemma_first_named(list, k + 1, wanted, table);
    }
}

proof fn lemma_first_named_is(
    list: Seq<Seq<u8>>,
    k: int,
    wanted: Seq<u16>,
    table: Option<Seq<u16>>,
    i: int,
)
    requires
        0 <= k <= i < list.len(),
        names::same(name_of(list[i]), wanted, table),
        forall|j: int| k <= j < i ==> !names::same(name_of(#[trigger] list[j]), wanted, table),
    ensures
        first_named(list, k, wanted, table) == Some(i),
{
    lemma_first_named(list, k, wanted, table);
}

/// A name that was put into an INDX block is found there: the search gives the
/// new entry, with its file reference.
pub proof fn lemma_block_insert_then_find(
    b: Seq<u8>,
    list: Seq<Seq<u8>>,
    e: Seq<u8>,
    table: Option<Seq<u16>>,
)
    requires
        is_entry(e),
        index_edit::insert_block_defined(b, e, name_of(e), table),
        index_edit::inserted_in_block(b, e, name_of(e), table) is Ok,
        block_holds(b, list),
    ensures
        ({
            let s = index_edit::inserted_in_block(b, e, name_of(e), table)->Ok_0;
            match index_io::found_in_block(s, name_of(e), table) {
                Ok(Some(loc)) => {
                    &&& loc.length == e.len()
                    &&& loc.file_record_number == index_io::record_number(reference_of(e))
                    &&& loc.sequence == index_io::sequence_number(reference_of(e))
                    &&& stands_at(s, loc.record_offset as int, e)
                },
                _ => false,
            }
        }),
{
    let new = name_of(e);
    let s = index_edit::inserted_in_block(b, e, new, table)->Ok_0;
    let r = rank_from(list, 0, new, table);
    let longer = list.insert(r, e);
    let ih = INDX_INDEX_HEADER_OFFSET as int;
    lemma_block_insert(b, list, e, table);
    let at = ih + index_io::first_entry(s, ih);
    let end = ih + index_io::total_size(s, ih);
    lemma_search_finds_first(s, at, end, s.len() as int, longer, new, table);
    assert forall|j: int| 0 <= j < r implies !names::same(
        name_of(#[trigger] longer[j]),
        new,
        table,
    ) by {
        assert(longer[j] == list[j]);
        names::lemma_order_is_total(new, name_of(list[j]), new, table);
    }
    assert(longer[r] == e);
    lemma_first_named_is(longer, 0, new, table, r);
    assert(entry_stands(s, at, longer, r));
    lemma_offsets_grow(longer, 0, r);
    lemma_reference_range(e);
}

proof fn lemma_reference_range(x: Seq<u8>)
    ensures
        0 <= reference_of(x) < 0x1_0000_0000_0000_0000,
{
}

/// Taking an entry out of an INDX block takes it off the list, and nothing
/// else.
pub proof fn lemma_block_remove(b: Seq<u8>, list: Seq<Seq<u8>>, r: int)
    requires
        block_holds(b, list),
        0 <= r < list.len(),
        !index_io::has_child(list[r], 0),
    ensures
        ({
            let ih = INDX_INDEX_HEADER_OFFSET as int;
            let loc = located(list, ih + index_io::first_entry(b, ih), r);
            let out = index_edit::removed(b, loc, index_edit::BlockKind::IndexAllocation);
            &&& index_edit::remove_defined(b, loc, index_edit::BlockKind::IndexAllocation)
            &&& out.1 is Ok
            &&& block_holds(out.0, list.remove(r))
        }),
{
    let ih = INDX_INDEX_HEADER_OFFSET as int;
    let at = ih + index_io::first_entry(b, ih);
    let total = index_io::total_size(b, ih);
    let loc = located(list, at, r);
    let p = at + offset_of(list, r);
    let gone = list[r].len() as int;
    lemma_offsets_grow(list, 0, r);
    lemma_offsets_grow(list, r, list.len() as int);
    assert(entry_stands(b, at, list, r));
    lemma_entry_in_place(b, p, list[r]);
    assert(loc.record_offset == p);
    assert(loc.length == gone);
    lemma_spliced_out(b, loc, ih, at);
    lemma_holds_removed(b, index_edit::spliced_out(b, loc, ih), at, ih + total, list, r);
}

/// What is left of a node without one of its entries.
proof fn lemma_spliced_out(b: Seq<u8>, loc: IndexEntryLocation, ih: int, at: int)
    requires
        INDX_INDEX_HEADER_OFFSET <= ih,
        ih + 0x10 <= at <= loc.record_offset,
        loc.record_offset + loc.length <= ih + index_io::total_size(b, ih) <= b.len(),
    ensures
        ({
            let s = index_edit::spliced_out(b, loc, ih);
            let total = index_io::total_size(b, ih);
            &&& s.len() == b.len()
            &&& index_io::total_size(s, ih) == total - loc.length
            &&& index_io::first_entry(s, ih) == index_io::first_entry(b, ih)
            &&& index_io::is_indx(s) == index_io::is_indx(b)
            &&& closed_at(
                b,
                s,
                at,
                ih + total,
                loc.record_offset as int,
                loc.length as int,
            )
        }),
{
    let p = loc.record_offset as int;
    let gone = loc.length as int;
    let total = index_io::total_size(b, ih);
    let m = attr_resize::shifted(b, p + gone, ih + total, p);
    let s = index_edit::spliced_out(b, loc, ih);
    assert(bytes::bytes32(total - gone).len() == 4);
    bytes::lemma_le32_of_patch(m, ih + IH_TOTAL_SIZE_OF_ENTRIES, total - gone);
    assert forall|i: int| at <= i < s.len() implies #[trigger] s[i] == m[i] by {}
    assert forall|i: int| 0 <= i < ih + 4 implies #[trigger] s[i] == b[i] by {}
}

/// A name that was taken out of an INDX block is not found there, where the
/// names of the block were in order.
pub proof fn lemma_block_remove_then_find(
    b: Seq<u8>,
    list: Seq<Seq<u8>>,
    r: int,
    table: Option<Seq<u16>>,
)
    requires
        block_holds(b, list),
        0 <= r < list.len(),
        !index_io::has_child(list[r], 0),
        in_order(list, table),
    ensures
        ({
            let ih = INDX_INDEX_HEADER_OFFSET as int;
            let loc = located(list, ih + index_io::first_entry(b, ih), r);
            let out = index_edit::removed(b, loc, index_edit::BlockKind::IndexAllocation);
            &&& index_io::found_in_block(b, name_of(list[r]), table) == Ok::<
                Option<IndexEntryLocation>,
                Seq<char>,
            >(Some(loc))
            &&& index_io::found_in_block(out.0, name_of(list[r]), table) == Ok::<
                Option<IndexEntryLocation>,
                Seq<char>,
            >(None)
            &&& in_order(list.remove(r), table)
        }),
{
    let ih = INDX_INDEX_HEADER_OFFSET as int;
    let at = ih + index_io::first_entry(b, ih);
    let loc = located(list, at, r);
    let s = index_edit::removed(b, loc, index_edit::BlockKind::IndexAllocation).0;
    let shorter = list.remove(r);
    let name = name_of(list[r]);
    lemma_block_remove(b, list, r);
    lemma_search_finds_first(
        b,
        at,
        ih + index_io::total_size(b, ih),
        b.len() as int,
        list,
        name,
        table,
    );
    lemma_search_finds_first(
        s,
        ih + index_io::first_entry(s, ih),
        ih + index_io::total_size(s, ih),
        s.len() as int,
        shorter,
        name,
        table,
    );
    lemma_name_is_once(list, r, table);
    lemma_remove_keeps_names_in_order(list, r, table);
}

/// Entries that were in order are so without one of them.
pub proof fn lemma_remove_keeps_names_in_order(
    list: Seq<Seq<u8>>,
    r: int,
    table: Option<Seq<u16>>,
)
    requires
        in_order(list, table),
        0 <= r < list.len(),
    ensures
        in_order(list.remove(r), table),
{
    let shorter = list.remove(r);
    assert forall|i: int, j: int| 0 <= i < j < shorter.len() implies names::order(
        name_of(#[trigger] shorter[i]),
        name_of(#[trigger] shorter[j]),
        table,
    ) < 0 by {
        let x = if i < r {
            i
        } else {
            i + 1
        };
        let y = if j < r {
            j
        } else {
            j + 1
        };
        assert(shorter[i] == list[x]);
        assert(shorter[j] == list[y]);
    }
}

/// Attribute `i` of the record is the `$INDEX_ROOT` that a directory's
/// functions find, with its name between its header and its value.
pub open spec fn is_directory(r: Seq<u8>, i: int) -> bool {
    let loc = attr_io::attributes(r)[i];
    &&& attr_resize::resizable(r, i)
    &&& loc.name_length != 0 ==> loc.name_offset >= 0x18
    &&& attr_io::is_wanted(r, loc, AttrType::IndexRoot, Some("$I30"@))
    &&& forall|j: int|
        0 <= j < i ==> !attr_io::is_wanted(
            r,
            #[trigger] attr_io::attributes(r)[j],
            AttrType::IndexRoot,
            Some("$I30"@),
        )
}

/// The record is a directory's, and its `$INDEX_ROOT`, attribute `i`, holds the
/// entries of `list`.
pub open spec fn root_holds(r: Seq<u8>, i: int, list: Seq<Seq<u8>>) -> bool {
    let ir = attr_io::attributes(r)[i];
    let ih = index_io::root_header(ir);
    &&& is_directory(r, i)
    &&& index_io::first_entry(r, ih) >= 0x10
    &&& ih + index_io::total_size(r, ih) <= index_io::value_end(ir)
    &&& holds(r, ih + index_io::first_entry(r, ih), ih + index_io::total_size(r, ih), list)
}

pub(crate) proof fn lemma_directory_root(r: Seq<u8>, i: int)
    requires
        is_directory(r, i),
    ensures
        index_io::index_root(r) == Some(attr_io::attributes(r)[i]),
        attr_io::within_record(attr_io::attributes(r)[i], r),
        attr_io::attributes(r)[i].is_resident,
{
    attr_io::lemma_found_at(r, AttrType::IndexRoot, Some("$I30"@), i);
    attr_io::lemma_attributes_are_within(r);
}

/// A directory is one after its `$INDEX_ROOT` was resized, with the same
/// attribute for its root.
pub(crate) proof fn lemma_directory_resized(r: Seq<u8>, i: int, n: u32)
    requires
        is_directory(r, i),
        attr_resize::resize_defined(r, attr_io::attributes(r)[i].attr_offset as int, n as int),
        attr_resize::resized(r, attr_io::attributes(r)[i].attr_offset as int, n as int) is Ok,
    ensures
        ({
            let ir = attr_io::attributes(r)[i];
            let t = attr_resize::resized(r, ir.attr_offset as int, n as int)->Ok_0;
            let now = attr_io::attributes(t)[i];
            let start = index_io::value_start(ir);
            &&& is_directory(t, i)
            &&& t.len() == r.len()
            &&& now.attr_offset == ir.attr_offset
            &&& now.resident_value_offset == ir.resident_value_offset
            &&& now.resident_value_length == Some(n)
            &&& attr_resize::one_entry_changed(
                attr_io::attributes(r),
                attr_io::attributes(t),
                i,
                now,
                now.attr_length - ir.attr_length,
            )
            &&& forall|k: int|
                start <= k < start + n && k < index_io::value_end(ir) ==> #[trigger] t[k] == r[k]
        }),
{
    let ir = attr_io::attributes(r)[i];
    let at = ir.attr_offset as int;
    let first = attr_io::attrs_start(r);
    let t = attr_resize::resized(r, at, n as int)->Ok_0;
    let wanted = Some("$I30"@);
    attr_io::lemma_walk_comes_to(r, attr_resize::used(r), first, i);
    attr_io::lemma_reaches_forward(r, attr_resize::used(r), first, at);
    attr_io::lemma_attributes_are_within(r);
    attr_io::lemma_attributes_do_not_overlap(r);
    attr_resize::lemma_resize_keeps_the_rest(r, i, n);
    attr_resize::lemma_resized_bytes(r, at, n as int);
    let now = attr_io::attributes(t)[i];
    assert(attr_io::attrs_start(t) == first);
    attr_io::lemma_attributes_are_within(t);
    attr_io::lemma_same_name(r, t, ir, now, "$I30"@);
    assert forall|j: int| 0 <= j < i implies !attr_io::is_wanted(
        t,
        #[trigger] attr_io::attributes(t)[j],
        AttrType::IndexRoot,
        wanted,
    ) by {
        let loc = attr_io::attributes(r)[j];
        assert(attr_io::attributes(t)[j] == loc);
        assert(attr_io::within_record(loc, r));
        lemma_walk_starts(r, j);
        attr_io::lemma_same_name(r, t, loc, loc, "$I30"@);
    }
}

/// No attribute stands before the first.
proof fn lemma_walk_starts(r: Seq<u8>, j: int)
    requires
        0 <= j < attr_io::attributes(r).len(),
        r.len() <= usize::MAX,
    ensures
        attr_io::attrs_start(r) <= attr_io::attributes(r)[j].attr_offset,
{
    attr_io::lemma_walk_comes_to(r, attr_io::bytes_in_use(r), attr_io::attrs_start(r), j);
    attr_io::lemma_reaches_forward(
        r,
        attr_io::bytes_in_use(r),
        attr_io::attrs_start(r),
        attr_io::attributes(r)[j].attr_offset as int,
    );
}

/// A directory is one after bytes in the value of its `$INDEX_ROOT` changed,
/// with the same attributes.
proof fn lemma_directory_rewritten(s: Seq<u8>, t: Seq<u8>, i: int)
    requires
        is_directory(s, i),
        attr_resize::differ_in_value(s, t, i),
    ensures
        is_directory(t, i),
        attr_io::attributes(t) == attr_io::attributes(s),
{
    let ir = attr_io::attributes(s)[i];
    attr_resize::lemma_value_change_keeps(s, t, i);
    attr_io::lemma_attributes_are_within(s);
    attr_io::lemma_attributes_do_not_overlap(s);
    lemma_walk_starts(s, i);
    assert(attr_resize::used(t) == attr_resize::used(s));
    assert(attr_io::attrs_start(t) == attr_io::attrs_start(s));
    attr_io::lemma_same_name(s, t, ir, ir, "$I30"@);
    assert forall|j: int| 0 <= j < i implies !attr_io::is_wanted(
        t,
        #[trigger] attr_io::attributes(t)[j],
        AttrType::IndexRoot,
        Some("$I30"@),
    ) by {
        let loc = attr_io::attributes(s)[j];
        assert(attr_io::within_record(loc, s));
        attr_io::lemma_same_name(s, t, loc, loc, "$I30"@);
    }
}

/// What an entry put into the value of a root leaves where.
pub(crate) proof fn lemma_put_into_root(
    t: Seq<u8>,
    ir: AttrLocation,
    p: int,
    old_len: int,
    total: int,
    e: Seq<u8>,
)
    requires
        ({
            let start = index_io::value_start(ir);
            let ih = index_io::root_header(ir);
            &&& ih + 0x10 <= p <= start + old_len
            &&& start + old_len + e.len() <= t.len()
            &&& 0 <= total
            &&& total + e.len() <= u32::MAX
        }),
    ensures
        ({
            let start = index_io::value_start(ir);
            let ih = index_io::root_header(ir);
            let s = index_edit::put_into_root(t, ir, p, old_len, total, e);
            &&& s.len() == t.len()
            &&& index_io::total_size(s, ih) == total + e.len()
            &&& index_io::first_entry(s, ih) == index_io::first_entry(t, ih)
            &&& forall|k: int|
                0 <= k < s.len() && !(start <= k < start + old_len + e.len()) ==> #[trigger] s[k]
                    == t[k]
            &&& forall|k: int| ih + 0x10 <= k < p ==> #[trigger] s[k] == t[k]
            &&& forall|k: int| p <= k < p + e.len() ==> #[trigger] s[k] == e[k - p]
            &&& forall|k: int|
                p + e.len() <= k < start + old_len + e.len() ==> #[trigger] s[k] == t[k - e.len()]
        }),
{
    let start = index_io::value_start(ir);
    let ih = index_io::root_header(ir);
    let v = bytes::bytes32(total + e.len());
    let a = index_edit::spliced_in(t, p, start + old_len, e);
    let b = bytes::patch(a, ih + IH_TOTAL_SIZE_OF_ENTRIES, v);
    let s = bytes::patch(b, ih + IH_ALLOCATED_SIZE_OF_ENTRIES, v);
    assert(v.len() == 4);
    bytes::lemma_le32_of_patch(a, ih + IH_TOTAL_SIZE_OF_ENTRIES, total + e.len());
    assert(index_io::total_size(s, ih) == index_io::total_size(b, ih));
    assert forall|k: int| ih + 0x10 <= k < s.len() implies #[trigger] s[k] == a[k] by {}
    assert forall|k: int| 0 <= k < ih + 4 implies #[trigger] s[k] == t[k] by {}
}

/// Putting an entry into a directory's `$INDEX_ROOT` makes it one of its
/// entries, at its rank by name; the others stay, in their order; and every
/// other attribute of the record is as it was, those behind the root moved.
pub proof fn lemma_root_insert(
    r: Seq<u8>,
    i: int,
    list: Seq<Seq<u8>>,
    e: Seq<u8>,
    table: Option<Seq<u16>>,
)
    requires
        is_entry(e),
        root_holds(r, i, list),
        index_edit::insert_root_defined(r, e, name_of(e), table),
        index_edit::inserted_in_root(r, e, name_of(e), table).1 is Ok,
    ensures
        ({
            let s = index_edit::inserted_in_root(r, e, name_of(e), table).0;
            let rank = rank_from(list, 0, name_of(e), table);
            let now = attr_io::attributes(s)[i];
            &&& 0 <= rank <= list.len()
            &&& root_holds(s, i, list.insert(rank, e))
            &&& attr_resize::one_entry_changed(
                attr_io::attributes(r),
                attr_io::attributes(s),
                i,
                now,
                now.attr_length - attr_io::attributes(r)[i].attr_length,
            )
        }),
{
    let ir = attr_io::attributes(r)[i];
    let ih = index_io::root_header(ir);
    let total = index_io::total_size(r, ih);
    let old_len = ir.resident_value_length->Some_0 as int;
    let rank = rank_from(list, 0, name_of(e), table);
    let p = ih + index_io::first_entry(r, ih) + offset_of(list, rank);
    let n = (old_len + e.len()) as u32;
    let t = attr_resize::resized(r, ir.attr_offset as int, n as int)->Ok_0;
    lemma_root_insert_steps(r, i, list, e, table);
    lemma_directory_resized(r, i, n);
    lemma_put_into_root(t, attr_io::attributes(t)[i], p, old_len, total, e);
    lemma_root_insert_ends(
        r,
        t,
        index_edit::put_into_root(t, attr_io::attributes(t)[i], p, old_len, total, e),
        i,
        list,
        e,
        rank,
    );
}

/// A root that has grown and has an entry put in at `rank` holds the longer
/// list.
pub(crate) proof fn lemma_root_insert_ends(
    r: Seq<u8>,
    t: Seq<u8>,
    s: Seq<u8>,
    i: int,
    list: Seq<Seq<u8>>,
    e: Seq<u8>,
    rank: int,
)
    requires
        is_entry(e),
        root_holds(r, i, list),
        is_directory(t, i),
        0 <= rank <= list.len(),
        t.len() == r.len(),
        s.len() == t.len(),
        ({
            let ir = attr_io::attributes(r)[i];
            let ir2 = attr_io::attributes(t)[i];
            let start = index_io::value_start(ir);
            let ih = index_io::root_header(ir);
            let total = index_io::total_size(r, ih);
            let p = ih + index_io::first_entry(r, ih) + offset_of(list, rank);
            let end = index_io::value_end(ir);
            &&& attr_io::within_record(ir, r)
            &&& attr_io::within_record(ir2, t)
            &&& ir2.attr_offset == ir.attr_offset
            &&& ir2.resident_value_offset == ir.resident_value_offset
            &&& ir2.resident_value_length->Some_0 == ir.resident_value_length->Some_0 + e.len()
            &&& ih + 0x10 <= p <= ih + total
            &&& index_io::total_size(s, ih) == total + e.len()
            &&& index_io::first_entry(s, ih) == index_io::first_entry(t, ih)
            &&& forall|k: int| start <= k < end ==> #[trigger] t[k] == r[k]
            &&& forall|k: int|
                0 <= k < s.len() && !(start <= k < end + e.len()) ==> #[trigger] s[k] == t[k]
            &&& forall|k: int| ih + 0x10 <= k < p ==> #[trigger] s[k] == t[k]
            &&& forall|k: int| p <= k < p + e.len() ==> #[trigger] s[k] == e[k - p]
            &&& forall|k: int|
                p + e.len() <= k < end + e.len() ==> #[trigger] s[k] == t[k - e.len()]
        }),
    ensures
        root_holds(s, i, list.insert(rank, e)),
        attr_io::attributes(s) == attr_io::attributes(t),
{
    let ir = attr_io::attributes(r)[i];
    let ih = index_io::root_header(ir);
    let at = ih + index_io::first_entry(r, ih);
    let end = ih + index_io::total_size(r, ih);
    let p = at + offset_of(list, rank);
    assert(attr_resize::differ_in_value(t, s, i));
    lemma_directory_rewritten(t, s, i);
    assert(index_io::first_entry(t, ih) == index_io::first_entry(r, ih));
    lemma_offsets_grow(list, 0, rank);
    lemma_opened_after_resize(r, t, s, at, end, p, e);
    lemma_holds_inserted(r, s, at, end, list, rank, e);
}

proof fn lemma_opened_after_resize(
    r: Seq<u8>,
    t: Seq<u8>,
    s: Seq<u8>,
    at: int,
    end: int,
    p: int,
    e: Seq<u8>,
)
    requires
        at <= p <= end,
        end + e.len() <= s.len(),
        forall|k: int| at <= k < end ==> #[trigger] t[k] == r[k],
        forall|k: int| at <= k < p ==> #[trigger] s[k] == t[k],
        forall|k: int| p <= k < p + e.len() ==> #[trigger] s[k] == e[k - p],
        forall|k: int| p + e.len() <= k < end + e.len() ==> #[trigger] s[k] == t[k - e.len()],
    ensures
        opened_at(r, s, at, end, p, e),
{
    assert forall|k: int| p + e.len() <= k < end + e.len() implies #[trigger] s[k] == r[k
        - e.len()] by {
        assert(s[k] == t[k - e.len()]);
    }
    assert forall|k: int| at <= k < p implies #[trigger] s[k] == r[k] by {
        assert(s[k] == t[k]);
    }
}

/// The steps of an insertion into a directory's root, one after the other.
pub(crate) proof fn lemma_root_insert_steps(
    r: Seq<u8>,
    i: int,
    list: Seq<Seq<u8>>,
    e: Seq<u8>,
    table: Option<Seq<u16>>,
)
    requires
        is_entry(e),
        root_holds(r, i, list),
        index_edit::insert_root_defined(r, e, name_of(e), table),
        index_edit::inserted_in_root(r, e, name_of(e), table).1 is Ok,
    ensures
        ({
            let ir = attr_io::attributes(r)[i];
            let ih = index_io::root_header(ir);
            let total = index_io::total_size(r, ih);
            let old_len = ir.resident_value_length->Some_0 as int;
            let rank = rank_from(list, 0, name_of(e), table);
            let p = ih + index_io::first_entry(r, ih) + offset_of(list, rank);
            let n = old_len + e.len();
            let t = attr_resize::resized(r, ir.attr_offset as int, n)->Ok_0;
            let ir2 = attr_io::attributes(t)[i];
            &&& 0 <= rank <= list.len()
            &&& n <= u32::MAX
            &&& ih + 0x10 <= p <= ih + total
            &&& attr_io::within_record(ir, r)
            &&& attr_resize::resize_defined(r, ir.attr_offset as int, n)
            &&& attr_resize::resized(r, ir.attr_offset as int, n) is Ok
            &&& attr_io::within_record(ir2, t)
            &&& index_edit::inserted_in_root(r, e, name_of(e), table).0
                == index_edit::put_into_root(t, ir2, p, old_len, total, e)
        }),
{
    let new = name_of(e);
    let ir = attr_io::attributes(r)[i];
    let ih = index_io::root_header(ir);
    let at = ih + index_io::first_entry(r, ih);
    let end = ih + index_io::total_size(r, ih);
    let old_len = ir.resident_value_length->Some_0 as int;
    let rank = rank_from(list, 0, new, table);
    let p = at + offset_of(list, rank);
    lemma_directory_root(r, i);
    lemma_rank(list, 0, new, table);
    lemma_place_from(r, at, end, list, 0, new, table, "malformed index during insert"@);
    lemma_offsets_grow(list, 0, rank);
    lemma_offsets_grow(list, rank, list.len() as int);
    assert(index_edit::place_in_root(r, new, table) == Ok::<(AttrLocation, int), Seq<char>>(
        (ir, p),
    ));
    let n = (old_len + e.len()) as u32;
    lemma_directory_resized(r, i, n);
    lemma_directory_root(attr_resize::resized(r, ir.attr_offset as int, n as int)->Ok_0, i);
}

/// A name that was put into a directory's `$INDEX_ROOT` is found there: the
/// search gives the new entry, with its file reference.
pub proof fn lemma_root_insert_then_find(
    r: Seq<u8>,
    i: int,
    list: Seq<Seq<u8>>,
    e: Seq<u8>,
    table: Option<Seq<u16>>,
)
    requires
        is_entry(e),
        root_holds(r, i, list),
        index_edit::insert_root_defined(r, e, name_of(e), table),
        index_edit::inserted_in_root(r, e, name_of(e), table).1 is Ok,
    ensures
        ({
            let s = index_edit::inserted_in_root(r, e, name_of(e), table).0;
            match index_io::found_in_root(s, name_of(e), table) {
                Ok(Some(loc)) => {
                    &&& loc.length == e.len()
                    &&& loc.file_record_number == index_io::record_number(reference_of(e))
                    &&& loc.sequence == index_io::sequence_number(reference_of(e))
                    &&& stands_at(s, loc.record_offset as int, e)
                },
                _ => false,
            }
        }),
{
    let s = index_edit::inserted_in_root(r, e, name_of(e), table).0;
    let rank = rank_from(list, 0, name_of(e), table);
    let longer = list.insert(rank, e);
    lemma_root_insert(r, i, list, e, table);
    lemma_inserted_is_found(r, i, list, e, table);
    let ih = index_io::root_header(attr_io::attributes(s)[i]);
    assert(entry_stands(s, ih + index_io::first_entry(s, ih), longer, rank));
    lemma_offsets_grow(longer, 0, rank);
    lemma_reference_range(e);
}

/// The search for a name that was put into a directory's `$INDEX_ROOT` gives the
/// place at its rank.
pub(crate) proof fn lemma_inserted_is_found(
    r: Seq<u8>,
    i: int,
    list: Seq<Seq<u8>>,
    e: Seq<u8>,
    table: Option<Seq<u16>>,
)
    requires
        is_entry(e),
        root_holds(r, i, list),
        index_edit::insert_root_defined(r, e, name_of(e), table),
        index_edit::inserted_in_root(r, e, name_of(e), table).1 is Ok,
    ensures
        ({
            let s = index_edit::inserted_in_root(r, e, name_of(e), table).0;
            let ih = index_io::root_header(attr_io::attributes(s)[i]);
            let rank = rank_from(list, 0, name_of(e), table);
            index_io::found_in_root(s, name_of(e), table) == Ok::<
                Option<IndexEntryLocation>,
                Seq<char>,
            >(Some(located(list.insert(rank, e), ih + index_io::first_entry(s, ih), rank)))
        }),
{
    let new = name_of(e);
    let s = index_edit::inserted_in_root(r, e, new, table).0;
    let rank = rank_from(list, 0, new, table);
    let longer = list.insert(rank, e);
    lemma_root_insert(r, i, list, e, table);
    lemma_rank(list, 0, new, table);
    assert forall|j: int| 0 <= j < rank implies !names::same(
        name_of(#[trigger] longer[j]),
        new,
        table,
    ) by {
        assert(longer[j] == list[j]);
        names::lemma_order_is_total(new, name_of(list[j]), new, table);
    }
    assert(longer[rank] == e);
    lemma_first_named_is(longer, 0, new, table, rank);
    lemma_root_search(s, i, longer, new, table);
}

/// A search of a directory's `$INDEX_ROOT` finds the first entry that has the
/// name, and nothing where none has.
pub proof fn lemma_root_search(
    r: Seq<u8>,
    i: int,
    list: Seq<Seq<u8>>,
    wanted: Seq<u16>,
    table: Option<Seq<u16>>,
)
    requires
        root_holds(r, i, list),
    ensures
        ({
            let ih = index_io::root_header(attr_io::attributes(r)[i]);
            index_io::found_in_root(r, wanted, table) == (match first_named(
                list,
                0,
                wanted,
                table,
            ) {
                Some(k) => Ok::<Option<IndexEntryLocation>, Seq<char>>(
                    Some(located(list, ih + index_io::first_entry(r, ih), k)),
                ),
                None => Ok(None),
            })
        }),
{
    let ir = attr_io::attributes(r)[i];
    let ih = index_io::root_header(ir);
    lemma_directory_root(r, i);
    lemma_offsets_grow(list, 0, list.len() as int);
    lemma_search_finds_first(
        r,
        ih + index_io::first_entry(r, ih),
        ih + index_io::total_size(r, ih),
        index_io::value_end(ir),
        list,
        wanted,
        table,
    );
}

/// Taking an entry out of a directory's `$INDEX_ROOT` takes it off the list,
/// and nothing else; every other attribute of the record is as it was, those
/// behind the root moved.
pub proof fn lemma_root_remove(r: Seq<u8>, i: int, list: Seq<Seq<u8>>, k: int)
    requires
        root_holds(r, i, list),
        0 <= k < list.len(),
        !index_io::has_child(list[k], 0),
        ({
            let ih = index_io::root_header(attr_io::attributes(r)[i]);
            let loc = located(list, ih + index_io::first_entry(r, ih), k);
            &&& index_edit::remove_defined(r, loc, index_edit::BlockKind::IndexRoot)
            &&& index_edit::removed(r, loc, index_edit::BlockKind::IndexRoot).1 is Ok
        }),
    ensures
        ({
            let ih = index_io::root_header(attr_io::attributes(r)[i]);
            let loc = located(list, ih + index_io::first_entry(r, ih), k);
            let s = index_edit::removed(r, loc, index_edit::BlockKind::IndexRoot).0;
            let now = attr_io::attributes(s)[i];
            &&& root_holds(s, i, list.remove(k))
            &&& attr_resize::one_entry_changed(
                attr_io::attributes(r),
                attr_io::attributes(s),
                i,
                now,
                now.attr_length - attr_io::attributes(r)[i].attr_length,
            )
        }),
{
    let ir = attr_io::attributes(r)[i];
    let ih = index_io::root_header(ir);
    let total = index_io::total_size(r, ih);
    let at = ih + index_io::first_entry(r, ih);
    let loc = located(list, at, k);
    let p = at + offset_of(list, k);
    let gone = list[k].len() as int;
    lemma_directory_root(r, i);
    lemma_offsets_grow(list, 0, k);
    lemma_offsets_grow(list, k, list.len() as int);
    assert(entry_stands(r, at, list, k));
    lemma_entry_in_place(r, p, list[k]);
    assert(loc.record_offset == p && loc.length == gone);
    let n = index_edit::shortened(ir, gone) as u32;
    let t = index_edit::spliced_out_of_root(r, loc, ih);
    lemma_root_remove_steps(r, i, loc);
    lemma_spliced_out_of_root(r, loc, ih, at, index_io::value_end(ir));
    lemma_directory_resized(t, i, n);
    let s = attr_resize::resized(t, ir.attr_offset as int, n as int)->Ok_0;
    lemma_closed_after_resize(r, t, s, at, ih + total, p, gone);
    lemma_holds_removed(r, s, at, ih + total, list, k);
    assert(index_io::first_entry(s, ih) == index_io::first_entry(t, ih));
    assert(index_io::total_size(s, ih) == index_io::total_size(t, ih));
}

proof fn lemma_closed_after_resize(
    r: Seq<u8>,
    t: Seq<u8>,
    s: Seq<u8>,
    at: int,
    end: int,
    p: int,
    gone: int,
)
    requires
        closed_at(r, t, at, end, p, gone),
        s.len() == t.len(),
        forall|j: int| at <= j < end - gone ==> #[trigger] s[j] == t[j],
    ensures
        closed_at(r, s, at, end, p, gone),
{
    assert forall|j: int| at <= j < p implies #[trigger] s[j] == r[j] by {
        assert(s[j] == t[j]);
    }
    assert forall|j: int| p <= j < end - gone implies #[trigger] s[j] == r[j + gone] by {
        assert(s[j] == t[j]);
    }
}

/// The steps of a removal from a directory's root, one after the other.
proof fn lemma_root_remove_steps(r: Seq<u8>, i: int, loc: IndexEntryLocation)
    requires
        is_directory(r, i),
        index_edit::remove_defined(r, loc, index_edit::BlockKind::IndexRoot),
        index_edit::removed(r, loc, index_edit::BlockKind::IndexRoot).1 is Ok,
        ({
            let ir = attr_io::attributes(r)[i];
            let ih = index_io::root_header(ir);
            &&& ih + 0x10 <= loc.record_offset
            &&& loc.record_offset + loc.length <= ih + index_io::total_size(r, ih)
                <= index_io::value_end(ir)
        }),
    ensures
        ({
            let ir = attr_io::attributes(r)[i];
            let ih = index_io::root_header(ir);
            let t = index_edit::spliced_out_of_root(r, loc, ih);
            let n = index_edit::shortened(ir, loc.length as int);
            &&& is_directory(t, i)
            &&& attr_io::attributes(t) == attr_io::attributes(r)
            &&& attr_resize::resize_defined(t, ir.attr_offset as int, n)
            &&& attr_resize::resized(t, ir.attr_offset as int, n) is Ok
            &&& index_edit::removed(r, loc, index_edit::BlockKind::IndexRoot).0
                == attr_resize::resized(t, ir.attr_offset as int, n)->Ok_0
        }),
{
    let ir = attr_io::attributes(r)[i];
    let ih = index_io::root_header(ir);
    lemma_directory_root(r, i);
    lemma_spliced_out_of_root(r, loc, ih, loc.record_offset as int, index_io::value_end(ir));
    let t = index_edit::spliced_out_of_root(r, loc, ih);
    assert(attr_resize::differ_in_value(r, t, i));
    lemma_directory_rewritten(r, t, i);
    lemma_directory_root(t, i);
}

proof fn lemma_spliced_out_of_root(
    b: Seq<u8>,
    loc: IndexEntryLocation,
    ih: int,
    at: int,
    limit: int,
)
    requires
        INDX_INDEX_HEADER_OFFSET <= ih,
        ih + 0x10 <= at <= loc.record_offset,
        loc.record_offset + loc.length <= ih + index_io::total_size(b, ih) <= limit <= b.len(),
    ensures
        ({
            let s = index_edit::spliced_out_of_root(b, loc, ih);
            let total = index_io::total_size(b, ih);
            &&& s.len() == b.len()
            &&& index_io::total_size(s, ih) == total - loc.length
            &&& index_io::first_entry(s, ih) == index_io::first_entry(b, ih)
            &&& forall|j: int|
                0 <= j < s.len() && !(ih <= j < limit) ==> #[trigger] s[j] == b[j]
            &&& closed_at(
                b,
                s,
                at,
                ih + total,
                loc.record_offset as int,
                loc.length as int,
            )
        }),
{
    let total = index_io::total_size(b, ih);
    let v = bytes::bytes32(total - loc.length);
    let m = index_edit::spliced_out(b, loc, ih);
    let s = index_edit::spliced_out_of_root(b, loc, ih);
    lemma_spliced_out(b, loc, ih, at);
    assert(v.len() == 4);
    assert(index_io::total_size(s, ih) == index_io::total_size(m, ih));
    assert forall|j: int| at <= j < s.len() implies #[trigger] s[j] == m[j] by {}
}

/// A name that was taken out of a directory's `$INDEX_ROOT` is not found there,
/// where its names were in order.
pub proof fn lemma_root_remove_then_find(
    r: Seq<u8>,
    i: int,
    list: Seq<Seq<u8>>,
    k: int,
    table: Option<Seq<u16>>,
)
    requires
        root_holds(r, i, list),
        0 <= k < list.len(),
        !index_io::has_child(list[k], 0),
        in_order(list, table),
        ({
            let ih = index_io::root_header(attr_io::attributes(r)[i]);
            let loc = located(list, ih + index_io::first_entry(r, ih), k);
            &&& index_edit::remove_defined(r, loc, index_edit::BlockKind::IndexRoot)
            &&& index_edit::removed(r, loc, index_edit::BlockKind::IndexRoot).1 is Ok
        }),
    ensures
        ({
            let ih = index_io::root_header(attr_io::attributes(r)[i]);
            let loc = located(list, ih + index_io::first_entry(r, ih), k);
            let s = index_edit::removed(r, loc, index_edit::BlockKind::IndexRoot).0;
            &&& index_io::found_in_root(r, name_of(list[k]), table) == Ok::<
                Option<IndexEntryLocation>,
                Seq<char>,
            >(Some(loc))
            &&& index_io::found_in_root(s, name_of(list[k]), table) == Ok::<
                Option<IndexEntryLocation>,
                Seq<char>,
            >(None)
        }),
{
    let ih = index_io::root_header(attr_io::attributes(r)[i]);
    let loc = located(list, ih + index_io::first_entry(r, ih), k);
    let s = index_edit::removed(r, loc, index_edit::BlockKind::IndexRoot).0;
    lemma_root_remove(r, i, list, k);
    lemma_name_is_once(list, k, table);
    lemma_root_search(r, i, list, name_of(list[k]), table);
    lemma_root_search(s, i, list.remove(k), name_of(list[k]), table);
}

/// Of names in order each is there once.
proof fn lemma_name_is_once(list: Seq<Seq<u8>>, r: int, table: Option<Seq<u16>>)
    requires
        0 <= r < list.len(),
        in_order(list, table),
    ensures
        first_named(list, 0, name_of(list[r]), table) == Some(r),
        first_named(list.remove(r), 0, name_of(list[r]), table) is None,
{
    let shorter = list.remove(r);
    let name = name_of(list[r]);
    assert forall|j: int| 0 <= j < list.len() && j != r implies !names::same(
        name_of(#[trigger] list[j]),
        name,
        table,
    ) by {
        names::lemma_order_is_total(name_of(list[j]), name, name, table);
        names::lemma_order_is_total(name, name_of(list[j]), name, table);
        if j < r {
            assert(names::order(name_of(list[j]), name_of(list[r]), table) < 0);
        } else {
            assert(names::order(name_of(list[r]), name_of(list[j]), table) < 0);
        }
    }
    lemma_first_named_is(list, 0, name, table, r);
    lemma_first_named(shorter, 0, name, table);
    if let Some(k) = first_named(shorter, 0, name, table) {
        if k < r {
            assert(shorter[k] == list[k]);
        } else {
            assert(shorter[k] == list[k + 1]);
        }
    }
}

/// An entry that was built is one: it is as long as it says, is neither the
/// last nor has a sub-node, and its name and file reference are those it was
/// built for.
pub proof fn lemma_built_is_entry(
    reference: u64,
    parent: u64,
    name: Seq<u16>,
    time: u64,
    is_dir: bool,
    namespace: u8,
)
    requires
        1 <= name.len() <= 255,
    ensures
        ({
            let x = index_edit::built_entry(reference, parent, name, time, is_dir, namespace);
            &&& is_entry(x)
            &&& !index_io::has_child(x, 0)
            &&& name_of(x) == name
            &&& reference_of(x) == reference
        }),
{
    let n = name.len() as int;
    let used = IE_KEY_START + FN_NAME_OFFSET + 2 * n;
    let x = index_edit::built_entry(reference, parent, name, time, is_dir, namespace);
    let head = bytes::bytes64(reference as int) + bytes::bytes16(index_edit::built_length(n))
        + bytes::bytes16(FN_NAME_OFFSET + 2 * n) + bytes::bytes16(0) + bytes::bytes16(0);
    let key = index_edit::built_key(parent, time, is_dir, n, namespace);
    let units = index_edit::unit_bytes(name);
    let pad = bytes::run_of(0, index_edit::built_length(n) - used);
    assert(head.len() == 0x10);
    lemma_key_tail(parent, time, is_dir, n, namespace);
    assert(x == head + key + units + pad);
    assert forall|k: int| 0 <= k < 0x10 implies x[k] == #[trigger] head[k] by {}
    assert(x[0x50] == key[0x40]);
    let body = head + key;
    assert(bytes::patch(x, 0x52, units) =~= x) by {
        assert forall|k: int| 0x52 <= k < 0x52 + 2 * n implies #[trigger] x[k] == units[k - 0x52] by {}
    }
    index_edit::lemma_units_of_patch(x, 0x52, name);
    assert(bytes::patch(x, 0, bytes::bytes64(reference as int)) =~= x);
    bytes::lemma_le64_of_patch(x, 0, reference as int);
}

proof fn lemma_key_tail(parent: u64, time: u64, is_dir: bool, n: int, namespace: u8)
    ensures
        index_edit::built_key(parent, time, is_dir, n, namespace).len() == 0x42,
        index_edit::built_key(parent, time, is_dir, n, namespace)[0x40] == n as u8,
        index_edit::built_key(parent, time, is_dir, n, namespace)[0x41] == namespace,
{
    let t = bytes::bytes64(time as int);
    assert(t.len() == 8);
    assert(bytes::bytes64(parent as int).len() == 8);
    assert(bytes::bytes64(0).len() == 8);
}

/// A renamed entry has the new name, and is otherwise the entry that it was.
#[verifier::rlimit(20)]
pub proof fn lemma_renamed_reads_back(b: Seq<u8>, at: int, x: Seq<u8>, new: Seq<u16>)
    requires
        stands_at(b, at, x),
        is_entry(x),
        new.len() == name_of(x).len(),
        at + x.len() <= usize::MAX,
    ensures
        ({
            let loc = index_io::entry_at(b, at);
            let y = bytes::patch(
                x,
                IE_KEY_START + FN_NAME_OFFSET,
                index_edit::unit_bytes(new),
            );
            match index_edit::entry_renamed(b, loc, new) {
                Ok(s) => stands_at(s, at, y) && is_entry(y) && name_of(y) == new && reference_of(y)
                    == reference_of(x),
                Err(_) => false,
            }
        }),
{
    let start = IE_KEY_START + FN_NAME_OFFSET;
    let u = index_edit::unit_bytes(new);
    let y = bytes::patch(x, start as int, u);
    lemma_entry_in_place(b, at, x);
    let loc = index_io::entry_at(b, at);
    assert(loc.name_length == new.len());
    assert(loc.record_offset == at);
    let s = index_edit::entry_renamed(b, loc, new)->Ok_0;
    index_edit::lemma_units_of_patch(x, start as int, new);
    assert forall|i: int| 0 <= i < x.len() implies s[at + i] == #[trigger] y[i] by {
        assert(b.subrange(at, at + x.len())[i] == b[at + i]);
    }
    assert(s.subrange(at, at + x.len()) =~= y);
    assert forall|i: int| 0 <= i < start implies y[i] == #[trigger] x[i] by {}
    lemma_same_head(x, y);
}

/// Entries that begin alike and are as long say the same of themselves.
proof fn lemma_same_head(x: Seq<u8>, y: Seq<u8>)
    requires
        x.len() == y.len(),
        is_entry(x),
        forall|i: int| 0 <= i < IE_KEY_START + FN_NAME_OFFSET ==> y[i] == #[trigger] x[i],
    ensures
        is_entry(y),
        y[IE_KEY_START + FN_NAME_LENGTH_OFFSET] == x[IE_KEY_START + FN_NAME_LENGTH_OFFSET],
        reference_of(y) == reference_of(x),
{
    assert(y[0] == x[0] && y[1] == x[1] && y[2] == x[2] && y[3] == x[3]);
    assert(y[4] == x[4] && y[5] == x[5] && y[6] == x[6] && y[7] == x[7]);
    assert(y[8] == x[8] && y[9] == x[9] && y[10] == x[10] && y[11] == x[11]);
    assert(y[12] == x[12] && y[13] == x[13]);
    assert(y[IE_KEY_START + FN_NAME_LENGTH_OFFSET] == x[IE_KEY_START + FN_NAME_LENGTH_OFFSET]);
}

} // verus!
