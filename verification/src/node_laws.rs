//! What the nodes of a directory hold, entry by entry, and where their blocks
//! are.

use vstd::prelude::*;

use crate::attr_io;
use crate::attr_io::{AttrLocation, AttrType};
use crate::bitmap;
use crate::bytes;
use crate::chunks;
use crate::chunks::MappedChunk;
use crate::data_runs;
use crate::idx_block;
use crate::idx_block::IndexAllocation;
use crate::index_io;
use crate::index_io::DirEntryView;
use crate::index_laws;
use crate::layout_laws;
use crate::mft_io;
use crate::mft_io::BootParams;
use crate::record_laws;
use crate::utf16;

verus! {

/// Where the fields of an index entry stand. The two low bits of its flags say
/// that it has a sub-node and that it is the last. A file reference is a record's
/// number of 48 bits, and 16 bits above it that count how often the record was
/// used.
pub proof fn lemma_where_entry_fields_stand(b: Seq<u8>, at: int, x: Seq<u8>, reference: int)
    requires
        0 <= reference < 0x1_0000_0000_0000_0000,
    ensures
        index_io::entry_length(b, at) == bytes::le16(b, at + 8),
        index_io::key_length(b, at) == bytes::le16(b, at + 0xA),
        index_io::has_child(b, at) == (bytes::le16(b, at + 0xC) % 2 == 1),
        index_io::is_last(b, at) == (bytes::le16(b, at + 0xC) / 2 % 2 == 1),
        reference == index_io::sequence_number(reference) * 0x1_0000_0000_0000
            + index_io::record_number(reference),
        0 <= index_io::record_number(reference) < 0x1_0000_0000_0000,
        index_laws::reference_of(x) == bytes::le64(x, 0),
        index_laws::name_of(x).len() == x[0x50],
        forall|i: int|
            0 <= i < x[0x50] ==> #[trigger] index_laws::name_of(x)[i] == bytes::le16(
                x,
                0x52 + 2 * i,
            ),
        index_io::entry_at(b, at).record_offset == at || at < 0 || at > usize::MAX,
        index_io::entry_at(b, at).length == bytes::le16(b, at + 8),
        index_io::entry_at(b, at).key_length == bytes::le16(b, at + 0xA),
        index_io::FN_NAMESPACE_OFFSET == 0x41,
        index_io::FN_FILE_ATTRIBUTES_OFFSET == 0x38,
        index_io::IH_ALLOCATED_SIZE_OF_ENTRIES == 8,
        index_io::IH_FLAG_HAS_SUBNODES == 1,
        index_io::INDEX_HEADER_SIZE == 0x10,
{
}

/// The index header of a directory's root stands 16 bytes into the value of its
/// attribute, that of a block 24 bytes into the block. The first entry is as far
/// behind the header as the first 32 bits of it say, and the entries end as far
/// behind it as the next 32 bits say.
pub proof fn lemma_where_a_node_stands(b: Seq<u8>, ir: AttrLocation, ih: int)
    requires
        ir.resident_value_offset is Some,
    ensures
        index_io::root_header(ir) == ir.attr_offset + ir.resident_value_offset->0 + 16,
        index_io::INDX_INDEX_HEADER_OFFSET == 24,
        index_io::first_entry(b, ih) == bytes::le32(b, ih),
        index_io::total_size(b, ih) == bytes::le32(b, ih + 4),
        index_io::index_root(b) == attr_io::found_attribute(b, AttrType::IndexRoot, Some("$I30"@)),
        index_io::is_indx(b) <==> b[0] == 'I' as int && b[1] == 'N' as int && b[2] == 'D' as int
            && b[3] == 'X' as int,
        idx_block::indx_magic().len() == 4,
        index_io::is_indx(idx_block::indx_magic()),
{
}

/// The bytes of an entry that is listed: as long as it says, not the last, with a
/// key inside it and a name inside the key.
pub open spec fn is_file_entry(x: Seq<u8>) -> bool {
    &&& x.len() >= 0x52
    &&& bytes::le16(x, 8) == x.len()
    &&& bytes::le16(x, 0xC) / 2 % 2 == 0
    &&& 0x10 + bytes::le16(x, 0xA) <= x.len()
    &&& 0x42 + 2 * x[0x50] <= bytes::le16(x, 0xA)
}

/// What a listing shows of an entry: the record's number, the name, the
/// namespace and the attributes.
pub open spec fn is_shown(v: DirEntryView, x: Seq<u8>) -> bool {
    &&& v.file_record_number == bytes::le64(x, 0) % 0x1_0000_0000_0000
    &&& v.namespace == x[0x51]
    &&& v.file_attributes == bytes::le32(x, 0x48)
    &&& forall|t: Seq<char>|
        #[trigger] layout_laws::spelled(x, 0x52, 2 * x[0x50], t) ==> v.name == t
}

/// The listing of a node shows its entries, each once, in their order, up to the
/// one that is marked as the last.
pub proof fn lemma_listing_shows_every_entry(
    before: Seq<u8>,
    list: Seq<Seq<u8>>,
    last: Seq<u8>,
    end: int,
    limit: int,
)
    requires
        forall|k: int| 0 <= k < list.len() ==> is_file_entry(#[trigger] list[k]),
        last.len() >= 0x10,
        bytes::le16(last, 0xC) / 2 % 2 == 1,
        before.len() + record_laws::joined(list).len() < end,
        before.len() + record_laws::joined(list).len() + 0x10 <= limit <= before.len()
            + record_laws::joined(list).len() + last.len(),
    ensures
        ({
            let shown = index_io::listed_from(
                before + record_laws::joined(list) + last,
                before.len() as int,
                end,
                limit,
            );
            &&& shown.1 is None
            &&& shown.0.len() == list.len()
            &&& forall|k: int| 0 <= k < list.len() ==> is_shown(#[trigger] shown.0[k], list[k])
        }),
{
    let b = before + record_laws::joined(list) + last;
    assert(list.skip(0) =~= list);
    assert(b.skip(before.len() as int) =~= record_laws::joined(list.skip(0)) + last);
    lemma_listed_from(b, before.len() as int, end, limit, list, last, 0);
}

proof fn lemma_listed_from(
    b: Seq<u8>,
    at: int,
    end: int,
    limit: int,
    list: Seq<Seq<u8>>,
    last: Seq<u8>,
    i: int,
)
    requires
        0 <= i <= list.len(),
        0 <= at <= b.len(),
        forall|k: int| 0 <= k < list.len() ==> is_file_entry(#[trigger] list[k]),
        last.len() >= 0x10,
        bytes::le16(last, 0xC) / 2 % 2 == 1,
        b.skip(at) == record_laws::joined(list.skip(i)) + last,
        at + record_laws::joined(list.skip(i)).len() < end,
        at + record_laws::joined(list.skip(i)).len() + 0x10 <= limit <= b.len(),
    ensures
        ({
            let shown = index_io::listed_from(b, at, end, limit);
            &&& shown.1 is None
            &&& shown.0.len() == list.len() - i
            &&& forall|k: int|
                0 <= k < list.len() - i ==> is_shown(#[trigger] shown.0[k], list[i + k])
        }),
    decreases list.len() - i,
{
    let rest = list.skip(i);
    assert(b.skip(at).len() == b.len() - at);
    if i == list.len() {
        assert(record_laws::joined(rest) + last =~= last);
        assert(b.skip(at)[0xC] == b[at + 0xC]);
        assert(b.skip(at)[0xD] == b[at + 0xD]);
    } else {
        let x = list[i];
        let more = record_laws::joined(list.skip(i + 1)) + last;
        assert(rest[0] == x);
        assert(rest.skip(1) =~= list.skip(i + 1));
        assert(record_laws::joined(rest) == x + record_laws::joined(list.skip(i + 1)));
        assert(record_laws::joined(rest) + last =~= x + more);
        assert forall|k: int| 0 <= k < x.len() implies b[at + k] == #[trigger] x[k] by {
            assert(b.skip(at)[k] == b[at + k]);
        }
        lemma_entry_shown(b, at, x);
        let next = at + x.len() as int;
        assert(b.skip(next) =~= more) by {
            assert forall|k: int| 0 <= k < more.len() implies b[next + k] == #[trigger] more[k] by {
                assert(b.skip(at)[x.len() + k] == b[next + k]);
            }
        }
        lemma_listed_from(b, next, end, limit, list, last, i + 1);
        let shown = index_io::listed_from(b, at, end, limit);
        let behind = index_io::listed_from(b, next, end, limit);
        assert(shown.0 == seq![index_io::listed_at(b, at)] + behind.0);
        assert forall|k: int| 0 <= k < list.len() - i implies is_shown(
            #[trigger] shown.0[k],
            list[i + k],
        ) by {
            if k > 0 {
                assert(shown.0[k] == behind.0[k - 1]);
                assert(is_shown(behind.0[k - 1], list[i + 1 + (k - 1)]));
            }
        }
    }
}

proof fn lemma_entry_shown(b: Seq<u8>, at: int, x: Seq<u8>)
    requires
        0 <= at,
        at + x.len() <= b.len(),
        is_file_entry(x),
        forall|k: int| 0 <= k < x.len() ==> b[at + k] == #[trigger] x[k],
    ensures
        index_io::entry_length(b, at) == x.len(),
        !index_io::is_last(b, at),
        index_io::is_listed(b, at),
        is_shown(index_io::listed_at(b, at), x),
{
    assert(b[at + 0] == x[0] && b[at + 1] == x[1] && b[at + 2] == x[2] && b[at + 3] == x[3]);
    assert(b[at + 4] == x[4] && b[at + 5] == x[5] && b[at + 6] == x[6] && b[at + 7] == x[7]);
    assert(b[at + 8] == x[8] && b[at + 9] == x[9] && b[at + 0xA] == x[0xA] && b[at + 0xB]
        == x[0xB] && b[at + 0xC] == x[0xC] && b[at + 0xD] == x[0xD]);
    assert(b[at + 0x48] == x[0x48] && b[at + 0x49] == x[0x49] && b[at + 0x4A] == x[0x4A] && b[at
        + 0x4B] == x[0x4B]);
    assert(b[at + 0x50] == x[0x50] && b[at + 0x51] == x[0x51]);
    assert(bytes::le64(b, at) == bytes::le64(x, 0));
    let n = x[0x50] as int;
    let u = attr_io::units_at(b, at + 0x52, n);
    assert forall|t: Seq<char>| #[trigger] layout_laws::spelled(x, 0x52, 2 * x[0x50], t) implies
        index_io::listed_at(b, at).name == t by {
        assert forall|i: int| 0 <= i < n implies u[i] == utf16::encoded(t)[i] by {
            assert(b[at + (0x52 + 2 * i)] == x[0x52 + 2 * i]);
            assert(b[at + (0x52 + 2 * i + 1)] == x[0x52 + 2 * i + 1]);
            let e = utf16::encoded(t)[i];
        }
        assert(u =~= utf16::encoded(t));
        utf16::lemma_decode_of_encode(t);
    }
}

/// Of a node that does not hold what it says, a listing shows what came before
/// and says that the rest is not there.
pub proof fn lemma_listing_stops_at_a_bad_entry(b: Seq<u8>, at: int, end: int, limit: int)
    requires
        at < end,
        at + 0x10 <= limit,
        bytes::le16(b, at + 0xC) / 2 % 2 == 0,
        bytes::le16(b, at + 8) == 0 || at + bytes::le16(b, at + 8) > limit,
    ensures
        index_io::listed_from(b, at, end, limit).0.len() == 0,
        index_io::listed_from(b, at, end, limit).1 is Some,
{
}

/// The first entry of a name is the one that is found, and nothing is where no
/// entry has it.
pub proof fn lemma_first_named_is_first(
    list: Seq<Seq<u8>>,
    k: int,
    wanted: Seq<u16>,
    table: Option<Seq<u16>>,
)
    requires
        0 <= k <= list.len(),
    ensures
        match index_laws::first_named(list, k, wanted, table) {
            Some(i) => k <= i < list.len() && crate::names::same(
                index_laws::name_of(list[i]),
                wanted,
                table,
            ) && forall|j: int|
                k <= j < i ==> !crate::names::same(
                    #[trigger] index_laws::name_of(list[j]),
                    wanted,
                    table,
                ),
            None => forall|j: int|
                k <= j < list.len() ==> !crate::names::same(
                    #[trigger] index_laws::name_of(list[j]),
                    wanted,
                    table,
                ),
        },
    decreases list.len() - k,
{
    if k < list.len() && !crate::names::same(index_laws::name_of(list[k]), wanted, table) {
        lemma_first_named_is_first(list, k + 1, wanted, table);
    }
}

/// One of the first `n` blocks is in use and begins with cluster `v`.
pub open spec fn is_block_start(ia: &IndexAllocation, n: int, v: int) -> bool {
    exists|k: int|
        0 <= k < n && #[trigger] bitmap::bit_of(ia.bitmap@, k) && v == (k * ia.block_size) / (
        ia.params.cluster_size as int)
}

/// The blocks in use are those whose bits are 1, each once, in their order, and
/// each begins as many bytes behind the first as the blocks before it take.
pub proof fn lemma_blocks_in_use(ia: &IndexAllocation, n: int)
    requires
        0 <= n,
        ia.params.cluster_size > 0,
        forall|k: int| 0 <= k < n ==> #[trigger] (k * ia.block_size) <= u64::MAX,
    ensures
        forall|i: int|
            0 <= i < idx_block::block_vcns(ia, n).len() ==> is_block_start(
                ia,
                n,
                #[trigger] idx_block::block_vcns(ia, n)[i] as int,
            ),
        forall|k: int|
            0 <= k < n && #[trigger] bitmap::bit_of(ia.bitmap@, k)
                ==> idx_block::block_vcns(ia, n).contains(
                ((k * ia.block_size) / (ia.params.cluster_size as int)) as u64,
            ),
        idx_block::block_vcns(ia, n).len() <= n,
        n > 0 ==> idx_block::block_vcns(ia, n - 1) == idx_block::block_vcns(ia, n).take(
            idx_block::block_vcns(ia, n - 1).len() as int,
        ),
    decreases n,
{
    if n > 0 {
        lemma_blocks_in_use(ia, n - 1);
        let had = idx_block::block_vcns(ia, n - 1);
        let all = idx_block::block_vcns(ia, n);
        let k = n - 1;
        let cs = ia.params.cluster_size as int;
        assert(k * ia.block_size <= u64::MAX);
        assert(0 <= k * ia.block_size) by (nonlinear_arith)
            requires
                k >= 0,
        ;
        let v = (k * ia.block_size) / cs;
        vstd::arithmetic::div_mod::lemma_div_pos_is_pos(k * ia.block_size, cs);
        vstd::arithmetic::div_mod::lemma_div_is_ordered_by_denominator(k * ia.block_size, 1, cs);
        assert(0 <= v <= u64::MAX);
        if bitmap::bit_of(ia.bitmap@, k) {
            assert(all == had.push(v as u64));
            assert(all.take(had.len() as int) =~= had);
            assert(all[had.len() as int] == v as u64);
            assert forall|i: int| 0 <= i < all.len() implies is_block_start(
                ia,
                n,
                #[trigger] all[i] as int,
            ) by {
                if i < had.len() {
                    assert(all[i] == had[i]);
                    lemma_start_among_more(ia, n - 1, had[i] as int);
                }
            }
            assert forall|m: int| 0 <= m < n && #[trigger] bitmap::bit_of(ia.bitmap@, m) implies
                all.contains(((m * ia.block_size) / cs) as u64) by {
                if m < n - 1 {
                    let w = ((m * ia.block_size) / cs) as u64;
                    assert(had.contains(w));
                    let i = choose|i: int| 0 <= i < had.len() && had[i] == w;
                    assert(all[i] == w);
                }
            }
        } else {
            assert(all.take(had.len() as int) =~= had);
            assert forall|i: int| 0 <= i < all.len() implies is_block_start(
                ia,
                n,
                #[trigger] all[i] as int,
            ) by {
                lemma_start_among_more(ia, n - 1, had[i] as int);
            }
        }
    }
}

proof fn lemma_start_among_more(ia: &IndexAllocation, n: int, v: int)
    requires
        is_block_start(ia, n, v),
    ensures
        is_block_start(ia, n + 1, v),
{
    let k = choose|k: int|
        0 <= k < n && #[trigger] bitmap::bit_of(ia.bitmap@, k) && v == (k * ia.block_size) / (
        ia.params.cluster_size as int);
    assert(bitmap::bit_of(ia.bitmap@, k));
}

/// A block is refused before it is looked for exactly where it would end behind
/// the data.
pub proof fn lemma_block_inside_the_data(ia: &IndexAllocation, vcn: u64)
    ensures
        idx_block::extent_error(ia, vcn) is None <==> vcn * ia.params.cluster_size + ia.block_size
            <= ia.data_length,
{
}

/// Byte `j` of a block is where the runs put byte `j` behind the start of the
/// block's first cluster.
pub proof fn lemma_block_is_where_the_runs_say(ia: &IndexAllocation, vcn: u64, device_bytes: u64)
    requires
        data_runs::contiguous_from(ia.runs@, 0),
        ia.params.cluster_size > 0,
    ensures
        idx_block::block_mapped(ia, vcn, device_bytes) matches Ok(ch) ==> {
            &&& chunks::laid_out(ch, ia.block_size as int)
            &&& chunks::placed(
                ia.runs@,
                ia.params.cluster_size as int,
                vcn * ia.params.cluster_size,
                ch,
            )
        },
        idx_block::block_offset(ia, vcn, device_bytes) matches Ok(offset)
            ==> data_runs::address_of(ia.runs@, vcn as int) == Some(
            offset / (ia.params.cluster_size as int),
        ) && offset % (ia.params.cluster_size as int) == 0,
{
    idx_block::lemma_block_mapped(ia, vcn, device_bytes);
    if idx_block::block_mapped(ia, vcn, device_bytes) is Ok {
        lemma_block_placed_from(ia, vcn, 0, device_bytes);
    }
    if idx_block::block_offset(ia, vcn, device_bytes) is Ok {
        let cs = ia.params.cluster_size as int;
        let run = data_runs::covering_run(ia.runs@, vcn as int)->0;
        data_runs::lemma_covering_run_covers(ia.runs@, vcn as int);
        lemma_address_of_covering(ia.runs@, 0, vcn as int);
        let offset = idx_block::block_offset(ia, vcn, device_bytes)->Ok_0;
        let a = run.lcn->0 + (vcn - run.starting_vcn);
        vstd::arithmetic::div_mod::lemma_fundamental_div_mod_converse(a * cs, cs, a, 0);
    }
}

proof fn lemma_address_of_covering(runs: Seq<crate::data_runs::DataRun>, from: int, vcn: int)
    requires
        data_runs::contiguous_from(runs, from),
        data_runs::covering_run(runs, vcn) matches Some(run) && run.lcn is Some,
    ensures
        ({
            let run = data_runs::covering_run(runs, vcn)->0;
            data_runs::address_of(runs, vcn) == Some(run.lcn->0 + (vcn - run.starting_vcn))
        }),
    decreases runs.len(),
{
    if runs.len() > 0 && !data_runs::covers(runs[0], vcn) {
        lemma_address_of_covering(runs.skip(1), from + runs[0].length, vcn);
    }
}

proof fn lemma_block_placed_from(ia: &IndexAllocation, vcn: u64, cursor: int, device_bytes: u64)
    requires
        data_runs::contiguous_from(ia.runs@, 0),
        0 <= cursor <= ia.block_size <= usize::MAX,
        ia.params.cluster_size > 0,
    ensures
        idx_block::block_mapped_from(ia, vcn, cursor, device_bytes) matches Ok(ch)
            ==> chunks::placed(
            ia.runs@,
            ia.params.cluster_size as int,
            vcn * ia.params.cluster_size,
            ch,
        ),
    decreases ia.block_size - cursor,
{
    let cs = ia.params.cluster_size as int;
    let from = vcn * cs;
    let cluster = vcn + cursor / cs;
    let byte = cursor % cs;
    if cursor < ia.block_size && idx_block::block_mapped_from(ia, vcn, cursor, device_bytes)
        is Ok {
        let ch = idx_block::block_mapped_from(ia, vcn, cursor, device_bytes)->Ok_0;
        let run = data_runs::covering_run(ia.runs@, cluster)->0;
        data_runs::lemma_covering_run_covers(ia.runs@, cluster);
        let lcn = run.lcn->0;
        let in_run = (run.starting_vcn + run.length - cluster) * cs;
        let n = if in_run - byte < ia.block_size - cursor {
            in_run - byte
        } else {
            ia.block_size - cursor
        };
        vstd::arithmetic::div_mod::lemma_mod_bound(cursor, cs);
        vstd::arithmetic::div_mod::lemma_div_pos_is_pos(cursor, cs);
        vstd::arithmetic::div_mod::lemma_fundamental_div_mod(cursor, cs);
        let at = from + cursor;
        assert(at == cluster * cs + byte && 0 <= from) by (nonlinear_arith)
            requires
                at == vcn * cs + cursor,
                from == vcn * cs,
                cluster == vcn + cursor / cs,
                cursor == cs * (cursor / cs) + byte,
                cs > 0,
        ;
        vstd::arithmetic::div_mod::lemma_fundamental_div_mod_converse(at, cs, cluster, byte);
        let offset = mft_io::span(
            ia.params,
            lcn,
            (cluster - run.starting_vcn) as u64,
            byte as u64,
            n as u64,
            device_bytes,
        )->Ok_0;
        assert(offset == (lcn + (cluster - run.starting_vcn)) * cs + byte);
        assert(0 <= offset) by (nonlinear_arith)
            requires
                offset == (lcn + (cluster - run.starting_vcn)) * cs + byte,
                cluster >= run.starting_vcn,
                lcn >= 0,
                cs > 0,
                byte >= 0,
        ;
        let rest = idx_block::block_mapped_from(ia, vcn, cursor + n, device_bytes)->Ok_0;
        let first = MappedChunk {
            disk_offset: offset as u64,
            cursor: cursor as usize,
            len: n as usize,
        };
        assert(ch == seq![first] + rest);
        lemma_block_placed_from(ia, vcn, cursor + n, device_bytes);
        assert forall|k: int| 0 <= k < ch.len() implies #[trigger] chunks::placed_at(
            ia.runs@,
            cs,
            from,
            ch,
            k,
        ) by {
            if k > 0 {
                assert(ch[k] == rest[k - 1]);
                assert(chunks::placed_at(ia.runs@, cs, from, rest, k - 1));
            } else {
                let stop = run.starting_vcn + run.length;
                assert(in_run == stop * cs - cluster * cs) by (nonlinear_arith)
                    requires
                        in_run == (stop - cluster) * cs,
                ;
                assert forall|j: int|
                    ch[0].cursor <= j < ch[0].cursor + ch[0].len implies #[trigger] chunks::place(
                    ia.runs@,
                    cs,
                    from + j,
                ) == ch[0].disk_offset + (j - ch[0].cursor) by {
                    chunks::lemma_place_in_run(ia.runs@, cs, run, at, from + j - at);
                }
            }
        }
    }
}

/// The size of the blocks is the 32 bits that stand 8 bytes into the value of the
/// directory's root. It is taken only where it is a power of two, no less than a
/// sector and no more than 65536.
pub proof fn lemma_size_of_blocks(params: BootParams, record: Seq<u8>, loc: AttrLocation)
    requires
        attr_io::found_attribute(record, AttrType::IndexRoot, Some("$I30"@)) == Some(loc),
        loc.is_resident,
    ensures
        ({
            let size = bytes::le32(record, loc.attr_offset + loc.resident_value_offset->0 + 8);
            let declared = idx_block::declared_block_size(params, record);
            &&& declared is Ok <==> loc.resident_value_length->0 >= 16 && params.bytes_per_sector
                <= size <= 65536 && bytes::power_of_two(size)
            &&& declared matches Ok(n) ==> n == size
        }),
{
}

/// A directory is empty where the first entry of its root is the last.
pub proof fn lemma_when_a_root_is_empty(record: Seq<u8>, ir: AttrLocation)
    requires
        index_io::index_root(record) == Some(ir),
        ir.is_resident,
        ir.resident_value_offset is Some,
    ensures
        index_io::real_entries(record) matches Ok(some) ==> {
            let ih = ir.attr_offset + ir.resident_value_offset->0 + 16;
            let first = ih + bytes::le32(record, ih);
            some <==> bytes::le16(record, first + 0xC) / 2 % 2 == 0
        },
        index_io::root_flags(record) matches Some(flags) ==> flags == record[ir.attr_offset
            + ir.resident_value_offset->0 + 28],
{
}

/// An entry is listed where its key is long enough for a name, is inside the
/// entry, and the name is inside the key. Any other is passed over.
pub proof fn lemma_which_entries_are_listed(b: Seq<u8>, at: int, end: int, limit: int)
    requires
        at < end,
        at + 0x10 <= limit,
        bytes::le16(b, at + 0xC) / 2 % 2 == 0,
        0 < bytes::le16(b, at + 8),
        at + bytes::le16(b, at + 8) <= limit,
    ensures
        ({
            let length = bytes::le16(b, at + 8);
            let key = bytes::le16(b, at + 0xA);
            let here = index_io::listed_from(b, at, end, limit);
            let behind = index_io::listed_from(b, at + length, end, limit);
            let is_listed = key >= 0x42 && 0x10 + key <= length && 0x42 + 2 * b[at + 0x50] <= key;
            &&& here.1 == behind.1
            &&& !is_listed ==> here.0 == behind.0
            &&& is_listed ==> here.0.len() == behind.0.len() + 1 && here.0.skip(1) == behind.0
        }),
{
    let length = bytes::le16(b, at + 8);
    let behind = index_io::listed_from(b, at + length, end, limit);
    assert((seq![index_io::listed_at(b, at)] + behind.0).skip(1) =~= behind.0);
}

/// When it can be told whether a directory is empty: its root is resident, and its
/// first entry is there before the entries end.
pub proof fn lemma_when_a_root_can_be_read(record: Seq<u8>, ir: AttrLocation)
    requires
        index_io::index_root(record) == Some(ir),
        ir.resident_value_offset is Some,
        ir.resident_value_length is Some,
    ensures
        ({
            let start = ir.attr_offset + ir.resident_value_offset->0;
            let ih = start + 16;
            let first = ih + bytes::le32(record, ih);
            let total = ih + bytes::le32(record, ih + 4);
            let stop = start + ir.resident_value_length->0;
            index_io::real_entries(record) is Ok <==> ir.is_resident && ih + 8 <= record.len()
                && first + 16 <= total && first + 16 <= stop
        }),
{
}

/// A block is in one piece on disk where it is inside the data, the run that its
/// first cluster is in is on disk and goes on to its last, and the volume and the
/// device hold it.
pub proof fn lemma_when_a_block_is_in_one_piece(ia: &IndexAllocation, vcn: u64, device_bytes: u64, n: int)
    requires
        ia.params.cluster_size > 0,
        (n - 1) * ia.params.cluster_size < ia.block_size <= n * ia.params.cluster_size,
    ensures
        idx_block::block_offset(ia, vcn, device_bytes) is Ok <==> {
            let run = data_runs::covering_run(ia.runs@, vcn as int);
            let at = (run->0.lcn->0 + (vcn - run->0.starting_vcn)) * ia.params.cluster_size;
            &&& vcn * ia.params.cluster_size + ia.block_size <= ia.data_length
            &&& run is Some
            &&& run->0.lcn is Some
            &&& vcn + n <= run->0.starting_vcn + run->0.length
            &&& at + ia.block_size <= ia.params.capacity() * ia.params.cluster_size
            &&& at + ia.block_size <= device_bytes
        },
{
    let cs = ia.params.cluster_size as int;
    let len = ia.block_size as int;
    let q = (len + cs - 1) / cs;
    vstd::arithmetic::div_mod::lemma_fundamental_div_mod(len + cs - 1, cs);
    vstd::arithmetic::div_mod::lemma_mod_bound(len + cs - 1, cs);
    assert(q == n) by (nonlinear_arith)
        requires
            len + cs - 1 == cs * q + (len + cs - 1) % cs,
            0 <= (len + cs - 1) % cs < cs,
            (n - 1) * cs < len <= n * cs,
            cs > 0,
    ;
    data_runs::lemma_covering_run_covers(ia.runs@, vcn as int);
}

/// A node is listed from the entry that its header names on, up to the end that it
/// names or that of the node. A node whose header is not all there is refused.
pub proof fn lemma_node_by_its_header(b: Seq<u8>, ih: int, limit: int)
    ensures
        ih + 16 > limit ==> index_io::listed_in_node(b, ih, limit).1 is Some
            && index_io::listed_in_node(b, ih, limit).0.len() == 0,
        ih + 16 <= limit ==> index_io::listed_in_node(b, ih, limit) == index_io::listed_from(
            b,
            ih + bytes::le32(b, ih),
            if ih + bytes::le32(b, ih + 4) < limit {
                ih + bytes::le32(b, ih + 4)
            } else {
                limit
            },
            limit,
        ),
{
}

/// The root of a directory is listed as the node in its value, and a block as the
/// node behind its own header.
pub proof fn lemma_roots_and_blocks_are_nodes(record: Seq<u8>, ir: AttrLocation, block: Seq<u8>)
    requires
        index_io::index_root(record) == Some(ir),
        ir.is_resident,
    ensures
        index_io::listed_in_root(record) == index_io::listed_in_node(
            record,
            ir.attr_offset + ir.resident_value_offset->0 + 16,
            ir.attr_offset + ir.resident_value_offset->0 + ir.resident_value_length->0,
        ),
        block.len() >= 4 && index_io::is_indx(block) ==> index_io::listed_in_block(block)
            == index_io::listed_in_node(block, 24, block.len() as int),
        block.len() < 4 || !index_io::is_indx(block) ==> index_io::listed_in_block(block).1 is Some
            && index_io::listed_in_block(block).0.len() == 0,
{
}

/// A search goes over the same entries as a listing.
pub proof fn lemma_search_goes_over_the_node(
    record: Seq<u8>,
    ir: AttrLocation,
    block: Seq<u8>,
    wanted: Seq<u16>,
    table: Option<Seq<u16>>,
)
    requires
        index_io::index_root(record) == Some(ir),
        ir.is_resident,
    ensures
        ({
            let ih = ir.attr_offset + ir.resident_value_offset->0 + 16;
            let limit = ir.attr_offset + ir.resident_value_offset->0
                + ir.resident_value_length->0;
            &&& ih + 16 > limit ==> index_io::found_in_root(record, wanted, table) is Err
            &&& ih + 16 <= limit ==> index_io::found_in_root(record, wanted, table)
                == index_io::found_from(
                record,
                ih + bytes::le32(record, ih),
                if ih + bytes::le32(record, ih + 4) < limit {
                    ih + bytes::le32(record, ih + 4)
                } else {
                    limit
                },
                limit,
                wanted,
                table,
            )
        }),
        index_io::is_indx(block) && block.len() >= 32 ==> index_io::found_in_block(
            block,
            wanted,
            table,
        ) == index_io::found_from(
            block,
            24 + bytes::le32(block, 24),
            24 + bytes::le32(block, 28),
            block.len() as int,
            wanted,
            table,
        ),
        !index_io::is_indx(block) ==> index_io::found_in_block(block, wanted, table) is Err,
{
}

/// A block that was read is taken where it can be fixed as one that begins with
/// the letters of a block.
pub proof fn lemma_block_is_fixed(raw: Seq<u8>, vcn: u64, disk_offset: u64, bps: u16)
    ensures
        match mft_io::fixed_on_read(raw, bps as int, seq![0x49u8, 0x4Eu8, 0x44u8, 0x58u8]) {
            Ok(b) => idx_block::block_read(raw, vcn, disk_offset, bps) == Ok::<Seq<u8>, Seq<char>>(
                b,
            ),
            Err(_) => idx_block::block_read(raw, vcn, disk_offset, bps) is Err,
        },
{
}

/// A search passes over an entry whose key is too short for a name, or whose name
/// is not all there, and stops at one that cannot be walked over.
pub proof fn lemma_search_passes_over(
    b: Seq<u8>,
    at: int,
    end: int,
    limit: int,
    wanted: Seq<u16>,
    table: Option<Seq<u16>>,
)
    requires
        at < end,
        0 <= at,
        at + 0x10 <= limit,
        bytes::le16(b, at + 0xC) / 2 % 2 == 0,
        wanted.len() > 0,
    ensures
        ({
            let length = bytes::le16(b, at + 8);
            let n = b[at + 0x50] as int;
            &&& length == 0 || at + length > limit ==> index_io::found_from(
                b,
                at,
                end,
                limit,
                wanted,
                table,
            ) is Err
            &&& 0 < length && at + length <= limit && (bytes::le16(b, at + 0xA) < 0x42 || at + 0x50
                >= b.len() || 0x52 + 2 * n > length) ==> index_io::found_from(
                b,
                at,
                end,
                limit,
                wanted,
                table,
            ) == index_io::found_from(b, at + length, end, limit, wanted, table)
        }),
{
    let none = Seq::<u16>::empty();
    assert(crate::names::folded(none, table).len() == 0);
    assert(crate::names::folded(wanted, table).len() == wanted.len());
}

/// What is said of an entry that was found is what stands in it, where it stands:
/// in the record, and in a list of entries one behind the other.
pub proof fn lemma_found_entry_says(b: Seq<u8>, at: int, list: Seq<Seq<u8>>, k: int)
    requires
        0 <= at <= usize::MAX,
        0 <= k < list.len(),
        0 <= at + index_laws::offset_of(list, k) <= usize::MAX,
        list[k].len() <= usize::MAX,
    ensures
        ({
            let e = index_io::entry_at(b, at);
            &&& e.record_offset == at
            &&& e.length == bytes::le16(b, at + 8)
            &&& e.key_length == bytes::le16(b, at + 0xA)
            &&& e.file_record_number == bytes::le64(b, at) % 0x1_0000_0000_0000
            &&& e.sequence == bytes::le64(b, at) / 0x1_0000_0000_0000
            &&& at + 0x52 + 2 * b[at + 0x50] <= b.len() && 0x52 + 2 * b[at + 0x50] <= bytes::le16(
                b,
                at + 8,
            ) ==> e.name_length == b[at + 0x50]
        }),
        ({
            let x = list[k];
            let e = index_laws::located(list, at, k);
            &&& e.record_offset == at + index_laws::offset_of(list, k)
            &&& e.length == x.len()
            &&& e.key_length == bytes::le16(x, 0xA)
            &&& e.file_record_number == bytes::le64(x, 0) % 0x1_0000_0000_0000
            &&& e.sequence == bytes::le64(x, 0) / 0x1_0000_0000_0000
            &&& e.name_length == x[0x50]
        }),
{
    lemma_two_bytes_above(bytes::le64(b, at));
    lemma_two_bytes_above(bytes::le64(list[k], 0));
    lemma_below_eight_bytes(b, at);
    lemma_below_eight_bytes(list[k], 0);
}

proof fn lemma_below_eight_bytes(b: Seq<u8>, at: int)
    ensures
        0 <= bytes::le64(b, at) < 0x1_0000_0000_0000_0000,
{
}

proof fn lemma_two_bytes_above(v: int)
    ensures
        0 <= v < 0x1_0000_0000_0000_0000 ==> 0 <= v / 0x1_0000_0000_0000 < 0x1_0000 && 0 <= v
            % 0x1_0000_0000_0000 <= u64::MAX,
{
}

} // verus!
