//! Changes to the entries of a directory index.

use vstd::prelude::*;

use crate::attr_io;
use crate::attr_io::{find_attribute, iter_attributes, read_units, AttrLocation, AttrType};
use crate::attr_resize;
use crate::attr_resize::resize_resident_value;
use crate::bytes;
use crate::bytes::{fill_bytes, get_u16, get_u32, move_bytes, put_u16, put_u32, write_bytes};
use crate::index_io;
use crate::index_io::{
    decimal_sum, entry_name, has_indx_magic, IndexEntryLocation, FN_NAME_LENGTH_OFFSET,
    FN_NAME_OFFSET, IE_FLAGS, IE_KEY_START, IE_LENGTH, IH_ALLOCATED_SIZE_OF_ENTRIES,
    IH_FIRST_ENTRY_OFFSET, IH_FLAGS_OFFSET, IH_TOTAL_SIZE_OF_ENTRIES, INDEX_HEADER_SIZE,
    INDX_INDEX_HEADER_OFFSET, IR_INDEX_HEADER_OFFSET,
};
use crate::names;
use crate::names::comes_behind;
use crate::text;
use crate::text::decimal;
use crate::upcase::UpcaseTable;
use crate::utf16;
use crate::utf16::encode_utf16;

verus! {

/// The bytes of code units, least significant first.
pub open spec fn unit_bytes(u: Seq<u16>) -> Seq<u8> {
    Seq::new(
        2 * u.len(),
        |i: int|
            if i % 2 == 0 {
                (u[i / 2] % 0x100) as u8
            } else {
                (u[i / 2] / 0x100) as u8
            },
    )
}

/// Units read back as they were written.
pub proof fn lemma_units_of_patch(b: Seq<u8>, at: int, u: Seq<u16>)
    requires
        0 <= at,
        at + 2 * u.len() <= b.len(),
    ensures
        attr_io::units_at(bytes::patch(b, at, unit_bytes(u)), at, u.len() as int) == u,
{
    let p = bytes::patch(b, at, unit_bytes(u));
    assert forall|i: int| 0 <= i < u.len() implies attr_io::units_at(p, at, u.len() as int)[i]
        == #[trigger] u[i] by {
        assert(p[at + 2 * i] == unit_bytes(u)[2 * i]);
        assert(p[at + 2 * i + 1] == unit_bytes(u)[2 * i + 1]);
    }
    assert(attr_io::units_at(p, at, u.len() as int) =~= u);
}

/// Writes code units from `at` on.
fn write_units(buf: &mut [u8], at: usize, u: &[u16])
    requires
        at + 2 * u.len() <= old(buf).len(),
    ensures
        final(buf)@ == bytes::patch(old(buf)@, at as int, unit_bytes(u@)),
{
    let size: usize = buf.len();
    let n: usize = u.len();
    let mut i: usize = 0;
    assert(buf@ =~= bytes::patch(old(buf)@, at as int, unit_bytes(u@.subrange(0, 0))));
    while i < n
        invariant
            n == u.len(),
            i <= n,
            size == old(buf).len(),
            at + 2 * n <= size,
            buf@ == bytes::patch(old(buf)@, at as int, unit_bytes(u@.subrange(0, i as int))),
        decreases n - i,
    {
        let ghost before = buf@;
        put_u16(buf, at + 2 * i, u[i]);
        proof {
            let done = u@.subrange(0, i + 1);
            let want = bytes::patch(old(buf)@, at as int, unit_bytes(done));
            assert forall|k: int| 0 <= k < want.len() implies buf@[k] == #[trigger] want[k] by {
                if at <= k < at + 2 * i {
                    assert(unit_bytes(done)[k - at] == unit_bytes(u@.subrange(0, i as int))[k
                        - at]);
                } else if k == at + 2 * i {
                    assert(unit_bytes(done)[2 * i] == (u[i as int] % 0x100) as u8);
                } else if k == at + 2 * i + 1 {
                    assert(unit_bytes(done)[2 * i + 1] == (u[i as int] / 0x100) as u8);
                }
            }
            assert(buf@ =~= want);
        }
        i = i + 1;
    }
    assert(u@.subrange(0, n as int) =~= u@);
}

/// The record after the name of `entry` was overwritten with one of the same
/// length.
pub open spec fn entry_renamed(r: Seq<u8>, entry: IndexEntryLocation, new: Seq<u16>) -> Result<
    Seq<u8>,
    Seq<char>,
> {
    if new.len() != entry.name_length {
        Err(
            "same-length rename required (got "@ + text::dec(new.len())
                + " u16 code units, expected "@ + text::dec(entry.name_length as nat) + ")"@,
        )
    } else {
        Ok(
            bytes::patch(
                r,
                entry.record_offset + IE_KEY_START + FN_NAME_OFFSET,
                unit_bytes(new),
            ),
        )
    }
}

/// Overwrites the name in an entry with another of the same length.
pub fn rename_index_entry_same_length(
    record: &mut [u8],
    entry: &IndexEntryLocation,
    new_name: &str,
) -> (res: Result<(), String>)
    requires
        utf16::encoded(new_name@).len() == entry.name_length ==> entry.record_offset + IE_KEY_START
            + FN_NAME_OFFSET + 2 * entry.name_length <= old(record).len(),
    ensures
        attr_resize::changed(
            old(record)@,
            final(record)@,
            res,
            entry_renamed(old(record)@, *entry, utf16::encoded(new_name@)),
        ),
{
    let units = encode_utf16(new_name);
    if units.len() != entry.name_length as usize {
        return Err(
            "same-length rename required (got ".to_owned().concat(
                decimal(units.len() as u64).as_str(),
            ).concat(" u16 code units, expected ").concat(
                decimal(entry.name_length as u64).as_str(),
            ).concat(")"),
        );
    }
    write_units(
        record,
        entry.record_offset + IE_KEY_START + FN_NAME_OFFSET,
        units.as_slice(),
    );
    Ok(())
}

/// What holds the entries that are changed.
#[derive(Debug, Clone, Copy, PartialEq, Eq, Structural)]
pub enum BlockKind {
    IndexRoot,
    IndexAllocation,
}

/// The value of an `$INDEX_ROOT` that is too short for an index.
pub open spec fn too_short_text(n: int) -> Seq<char> {
    "$INDEX_ROOT:$I30 value is "@ + text::dec(n as nat) + " bytes, too short to hold an index"@
}

/// The place of the index header, and the end of what holds the node.
pub open spec fn node_bounds(b: Seq<u8>, kind: BlockKind) -> Result<(int, int), Seq<char>> {
    match kind {
        BlockKind::IndexAllocation => Ok((INDX_INDEX_HEADER_OFFSET as int, b.len() as int)),
        BlockKind::IndexRoot => match index_io::index_root(b) {
            None => Err("$INDEX_ROOT:$I30 missing"@),
            Some(ir) => if !ir.is_resident {
                Err("no value_offset"@)
            } else if ir.resident_value_length->Some_0 < IR_INDEX_HEADER_OFFSET {
                Err(too_short_text(ir.resident_value_length->Some_0 as int))
            } else {
                Ok((index_io::root_header(ir), index_io::value_end(ir)))
            },
        },
    }
}

/// The entry lies inside the entries that the header at `ih` speaks of, and
/// these end before `limit`.
pub open spec fn entry_inside(b: Seq<u8>, entry: IndexEntryLocation, ih: int, limit: int) -> bool {
    let tail_end = ih + index_io::total_size(b, ih);
    &&& tail_end <= limit
    &&& ih <= entry.record_offset
    &&& entry.record_offset + entry.length <= tail_end
}

/// `b` without the entry: those behind it follow at once, what they leave is
/// zero, and the header counts them.
pub open spec fn spliced_out(b: Seq<u8>, entry: IndexEntryLocation, ih: int) -> Seq<u8> {
    let total = index_io::total_size(b, ih);
    bytes::patch(
        attr_resize::shifted(
            b,
            entry.record_offset + entry.length,
            ih + total,
            entry.record_offset as int,
        ),
        ih + IH_TOTAL_SIZE_OF_ENTRIES,
        bytes::bytes32(total - entry.length),
    )
}

/// `spliced_out`, with the allocated size made the size of the entries.
pub open spec fn spliced_out_of_root(b: Seq<u8>, entry: IndexEntryLocation, ih: int) -> Seq<u8> {
    bytes::patch(
        spliced_out(b, entry, ih),
        ih + IH_ALLOCATED_SIZE_OF_ENTRIES,
        bytes::bytes32(index_io::total_size(b, ih) - entry.length),
    )
}

/// The length of the value of `ir` without `n` of its bytes.
pub open spec fn shortened(ir: AttrLocation, n: int) -> int {
    if ir.resident_value_length->Some_0 < n {
        0
    } else {
        ir.resident_value_length->Some_0 - n
    }
}

/// The buffer after the entry was taken out, and whether it could be.
pub open spec fn removed(b: Seq<u8>, entry: IndexEntryLocation, kind: BlockKind) -> (
    Seq<u8>,
    Result<(), Seq<char>>,
) {
    match node_bounds(b, kind) {
        Err(m) => (b, Err(m)),
        Ok((ih, limit)) => if !entry_inside(b, entry, ih, limit) {
            (
                b,
                Err(
                    "index says its entries end at "@ + text::dec(
                        (ih + index_io::total_size(b, ih)) as nat,
                    ) + ", past the "@ + text::dec(limit as nat) + " where the index itself does"@,
                ),
            )
        } else if index_io::has_child(b, entry.record_offset as int) {
            (
                b,
                Err(
                    "the entry to remove points at a sub-node; removing it would orphan that subtree (index B-tree maintenance is not implemented)"@,
                ),
            )
        } else if kind == BlockKind::IndexAllocation {
            (spliced_out(b, entry, ih), Ok(()))
        } else {
            let s = spliced_out_of_root(b, entry, ih);
            match index_io::index_root(s) {
                None => (s, Err("$INDEX_ROOT re-find failed"@)),
                Some(ir) => if !ir.is_resident {
                    (s, Err("no value_length"@))
                } else {
                    match attr_resize::resized(
                        s,
                        ir.attr_offset as int,
                        shortened(ir, entry.length as int),
                    ) {
                        Ok(t) => (t, Ok(())),
                        Err(m) => (s, Err(m)),
                    }
                },
            }
        },
    }
}

/// The inputs on which `remove_index_entry` is defined: the fields that it
/// reads and writes are inside the buffer.
pub open spec fn remove_defined(b: Seq<u8>, entry: IndexEntryLocation, kind: BlockKind) -> bool {
    match node_bounds(b, kind) {
        Err(_) => true,
        Ok((ih, limit)) => {
            &&& ih + IH_TOTAL_SIZE_OF_ENTRIES + 4 <= b.len()
            &&& entry_inside(b, entry, ih, limit) ==> {
                &&& entry.record_offset + IE_FLAGS + 2 <= b.len()
                &&& kind == BlockKind::IndexRoot && !index_io::has_child(
                    b,
                    entry.record_offset as int,
                ) ==> {
                    let s = spliced_out_of_root(b, entry, ih);
                    &&& ih + IH_ALLOCATED_SIZE_OF_ENTRIES + 4 <= b.len()
                    &&& match index_io::index_root(s) {
                        Some(ir) => ir.is_resident ==> attr_resize::resize_defined(
                            s,
                            ir.attr_offset as int,
                            shortened(ir, entry.length as int),
                        ),
                        None => true,
                    }
                }
            }
        },
    }
}

/// A change of a buffer came out as `want` says.
pub open spec fn came_out(
    after: Seq<u8>,
    got: Result<(), String>,
    want: (Seq<u8>, Result<(), Seq<char>>),
) -> bool {
    &&& after == want.0
    &&& match (got, want.1) {
        (Ok(_), Ok(_)) => true,
        (Err(m), Err(w)) => m@ == w,
        _ => false,
    }
}

/// The place of the index header in a buffer, and the end of what holds it.
fn find_node(buf: &[u8], kind: BlockKind) -> (res: Result<(usize, usize), String>)
    requires
        kind == BlockKind::IndexAllocation ==> INDX_INDEX_HEADER_OFFSET <= buf.len(),
    ensures
        match (res, node_bounds(buf@, kind)) {
            (Ok(v), Ok(w)) => v.0 == w.0 && v.1 == w.1 && v.0 <= v.1 <= buf.len(),
            (Err(m), Err(w)) => m@ == w,
            _ => false,
        },
{
    let size: usize = buf.len();
    match kind {
        BlockKind::IndexAllocation => Ok((INDX_INDEX_HEADER_OFFSET, size)),
        BlockKind::IndexRoot => {
            let ir = match find_attribute(buf, AttrType::IndexRoot, Some("$I30")) {
                Some(ir) => ir,
                None => {
                    return Err("$INDEX_ROOT:$I30 missing".to_owned());
                },
            };
            let off: u16 = match ir.resident_value_offset {
                Some(v) => v,
                None => {
                    return Err("no value_offset".to_owned());
                },
            };
            let len: u32 = match ir.resident_value_length {
                Some(v) => v,
                None => {
                    return Err("no value_length".to_owned());
                },
            };
            if (len as usize) < IR_INDEX_HEADER_OFFSET {
                return Err(
                    "$INDEX_ROOT:$I30 value is ".to_owned().concat(
                        decimal(len as u64).as_str(),
                    ).concat(" bytes, too short to hold an index"),
                );
            }
            let start: usize = ir.attr_offset + off as usize;
            Ok((start + IR_INDEX_HEADER_OFFSET, start + len as usize))
        },
    }
}

/// Closes the gap that `entry` leaves, and counts the entries in the header.
fn splice_out(buf: &mut [u8], entry: &IndexEntryLocation, ih: usize, total: u32)
    requires
        total == index_io::total_size(old(buf)@, ih as int),
        ih + total <= old(buf).len(),
        ih + IH_TOTAL_SIZE_OF_ENTRIES + 4 <= old(buf).len(),
        ih <= entry.record_offset,
        entry.record_offset + entry.length <= ih + total,
    ensures
        final(buf)@ == spliced_out(old(buf)@, *entry, ih as int),
{
    let size: usize = buf.len();
    let at: usize = entry.record_offset;
    let entry_end: usize = at + entry.length;
    let tail_end: usize = ih + total as usize;
    move_bytes(buf, entry_end, tail_end, at);
    fill_bytes(buf, at + (tail_end - entry_end), tail_end, 0);
    assert(buf@ =~= attr_resize::shifted(
        old(buf)@,
        entry_end as int,
        tail_end as int,
        at as int,
    ));
    put_u32(buf, ih + IH_TOTAL_SIZE_OF_ENTRIES, (total as usize - entry.length) as u32);
}

/// Takes an entry out of the node that holds it. In an `$INDEX_ROOT` the
/// attribute shrinks with it. An entry that points at a sub-node is refused:
/// without it the sub-node could not be reached.
pub fn remove_index_entry(buf: &mut [u8], entry: &IndexEntryLocation, block_kind: BlockKind) -> (res:
    Result<(), String>)
    requires
        remove_defined(old(buf)@, *entry, block_kind),
    ensures
        came_out(final(buf)@, res, removed(old(buf)@, *entry, block_kind)),
{
    let size: usize = buf.len();
    let (ih, limit): (usize, usize) = match find_node(buf, block_kind) {
        Ok(v) => v,
        Err(m) => {
            return Err(m);
        },
    };
    let total: u32 = get_u32(buf, ih + IH_TOTAL_SIZE_OF_ENTRIES);
    let inside: bool = total as usize <= limit - ih && entry.record_offset >= ih
        && entry.record_offset <= ih + total as usize && entry.length <= ih + total as usize
        - entry.record_offset;
    if !inside {
        return Err(
            "index says its entries end at ".to_owned().concat(
                decimal_sum(ih, total as usize).as_str(),
            ).concat(", past the ").concat(decimal(limit as u64).as_str()).concat(
                " where the index itself does",
            ),
        );
    }
    let flags: u16 = get_u16(buf, entry.record_offset + IE_FLAGS);
    if flags % 2 == 1 {
        return Err(
            "the entry to remove points at a sub-node; removing it would orphan that subtree (index B-tree maintenance is not implemented)".to_owned(),
        );
    }
    splice_out(buf, entry, ih, total);
    match block_kind {
        BlockKind::IndexAllocation => Ok(()),
        BlockKind::IndexRoot => {
            put_u32(
                buf,
                ih + IH_ALLOCATED_SIZE_OF_ENTRIES,
                (total as usize - entry.length) as u32,
            );
            let ir = match find_attribute(buf, AttrType::IndexRoot, Some("$I30")) {
                Some(ir) => ir,
                None => {
                    return Err("$INDEX_ROOT re-find failed".to_owned());
                },
            };
            let old_len: u32 = match ir.resident_value_length {
                Some(v) => v,
                None => {
                    return Err("no value_length".to_owned());
                },
            };
            let new_len: u32 = old_len.saturating_sub(entry.length as u32);
            resize_resident_value(buf, ir.attr_offset, new_len)
        },
    }
}

/// The length of an entry whose name has `n` units.
pub open spec fn built_length(n: int) -> int {
    attr_resize::aligned8(IE_KEY_START + FN_NAME_OFFSET + 2 * n)
}

/// The `$FILE_NAME` key of a new entry, up to its name: the directory, four
/// times, no size, the attributes, nothing, and the length and namespace of the
/// name.
pub open spec fn built_key(parent: u64, time: u64, is_dir: bool, n: int, namespace: u8) -> Seq<u8> {
    let t = bytes::bytes64(time as int);
    bytes::bytes64(parent as int) + t + t + t + t + bytes::bytes64(0) + bytes::bytes64(0)
        + bytes::bytes32(
        if is_dir {
            0x1000_0020
        } else {
            0x20
        },
    ) + bytes::bytes32(0) + seq![n as u8, namespace]
}

/// A new entry: its header, its key, and zeros up to a multiple of 8.
pub open spec fn built_entry(
    reference: u64,
    parent: u64,
    name: Seq<u16>,
    time: u64,
    is_dir: bool,
    namespace: u8,
) -> Seq<u8> {
    let n = name.len() as int;
    let used = IE_KEY_START + FN_NAME_OFFSET + 2 * n;
    bytes::bytes64(reference as int) + bytes::bytes16(built_length(n)) + bytes::bytes16(
        FN_NAME_OFFSET + 2 * n,
    ) + bytes::bytes16(0) + bytes::bytes16(0) + built_key(parent, time, is_dir, n, namespace)
        + unit_bytes(name) + bytes::run_of(0, built_length(n) - used)
}

fn push_u16(out: &mut Vec<u8>, v: u16)
    ensures
        final(out)@ == old(out)@ + bytes::bytes16(v as int),
{
    out.push((v % 0x100) as u8);
    out.push((v / 0x100) as u8);
    assert(out@ =~= old(out)@ + bytes::bytes16(v as int));
}

fn push_u32(out: &mut Vec<u8>, v: u32)
    ensures
        final(out)@ == old(out)@ + bytes::bytes32(v as int),
{
    push_u16(out, (v % 0x1_0000) as u16);
    push_u16(out, (v / 0x1_0000) as u16);
    assert(out@ =~= old(out)@ + bytes::bytes32(v as int));
}

fn push_u64(out: &mut Vec<u8>, v: u64)
    ensures
        final(out)@ == old(out)@ + bytes::bytes64(v as int),
{
    push_u32(out, (v % 0x1_0000_0000) as u32);
    push_u32(out, (v / 0x1_0000_0000) as u32);
    assert(out@ =~= old(out)@ + (bytes::bytes32((v % 0x1_0000_0000) as int) + bytes::bytes32(
        (v / 0x1_0000_0000) as int,
    )));
}

fn push_units(out: &mut Vec<u8>, u: &[u16])
    ensures
        final(out)@ == old(out)@ + unit_bytes(u@),
{
    let n: usize = u.len();
    let mut i: usize = 0;
    assert(out@ =~= old(out)@ + unit_bytes(u@.subrange(0, 0)));
    while i < n
        invariant
            n == u.len(),
            i <= n,
            out@ == old(out)@ + unit_bytes(u@.subrange(0, i as int)),
        decreases n - i,
    {
        let ghost before = out@;
        push_u16(out, u[i]);
        proof {
            let done = u@.subrange(0, i + 1);
            assert(unit_bytes(done) =~= unit_bytes(u@.subrange(0, i as int)) + bytes::bytes16(
                u[i as int] as int,
            )) by {
                assert forall|k: int|
                    0 <= k < 2 * (i + 1) implies #[trigger] unit_bytes(done)[k] == (unit_bytes(
                    u@.subrange(0, i as int),
                ) + bytes::bytes16(u[i as int] as int))[k] by {
                    assert(k / 2 <= i);
                }
            }
            assert(out@ =~= old(out)@ + unit_bytes(done));
        }
        i = i + 1;
    }
    assert(u@.subrange(0, n as int) =~= u@);
}

fn push_zeros(out: &mut Vec<u8>, n: usize)
    ensures
        final(out)@ == old(out)@ + bytes::run_of(0, n as int),
{
    let mut i: usize = 0;
    assert(out@ =~= old(out)@ + bytes::run_of(0, 0));
    while i < n
        invariant
            i <= n,
            out@ == old(out)@ + bytes::run_of(0, i as int),
        decreases n - i,
    {
        out.push(0);
        i = i + 1;
        assert(out@ =~= old(out)@ + bytes::run_of(0, i as int));
    }
}

fn push_key(out: &mut Vec<u8>, parent: u64, time: u64, is_dir: bool, n: u8, namespace: u8)
    ensures
        final(out)@ == old(out)@ + built_key(parent, time, is_dir, n as int, namespace),
{
    push_u64(out, parent);
    push_u64(out, time);
    push_u64(out, time);
    push_u64(out, time);
    push_u64(out, time);
    push_u64(out, 0);
    push_u64(out, 0);
    let attributes: u32 = if is_dir {
        0x1000_0020
    } else {
        0x20
    };
    push_u32(out, attributes);
    push_u32(out, 0);
    out.push(n);
    out.push(namespace);
    proof {
        let t = bytes::bytes64(time as int);
        let a = bytes::bytes64(parent as int);
        let z = bytes::bytes64(0);
        let f = bytes::bytes32(attributes as int);
        let e = bytes::bytes32(0);
        let k = seq![n, namespace];
        let o = old(out)@;
        assert(out@ =~= o + a + t + t + t + t + z + z + f + e + k);
        assert(o + a + t + t + t + t + z + z + f + e + k =~= o + (a + t + t + t + t + z + z + f + e
            + k));
    }
}

/// Builds the entry of a new name, ready to be put into a node. `namespace` is
/// the namespace of the name, which its `$FILE_NAME` attribute says too.
pub fn build_file_name_index_entry(
    file_reference: u64,
    parent_reference: u64,
    name: &str,
    nt_time: u64,
    is_dir: bool,
    namespace: u8,
) -> (res: Result<Vec<u8>, String>)
    ensures
        ({
            let units = utf16::encoded(name@);
            match res {
                Ok(e) => {
                    &&& 1 <= units.len() <= 255
                    &&& e@ == built_entry(
                        file_reference,
                        parent_reference,
                        units,
                        nt_time,
                        is_dir,
                        namespace,
                    )
                },
                Err(m) => {
                    &&& units.len() == 0 || units.len() > 255
                    &&& m@ == "invalid name length "@ + text::dec(units.len())
                },
            }
        }),
{
    let units = encode_utf16(name);
    let n: usize = units.len();
    if n == 0 || n > 255 {
        return Err("invalid name length ".to_owned().concat(decimal(n as u64).as_str()));
    }
    let key_len: usize = FN_NAME_OFFSET + n * 2;
    let entry_len: usize = (IE_KEY_START + key_len + 7) / 8 * 8;
    let mut e: Vec<u8> = Vec::new();
    push_u64(&mut e, file_reference);
    push_u16(&mut e, entry_len as u16);
    push_u16(&mut e, key_len as u16);
    push_u16(&mut e, 0);
    push_u16(&mut e, 0);
    push_key(&mut e, parent_reference, nt_time, is_dir, n as u8, namespace);
    push_units(&mut e, units.as_slice());
    push_zeros(&mut e, entry_len - (IE_KEY_START + key_len));
    proof {
        let start = bytes::bytes64(file_reference as int);
        assert(Seq::<u8>::empty() + start =~= start);
    }
    Ok(e)
}

/// The reason why nothing is put into an interior node.
pub open spec fn interior_text(what: Seq<char>) -> Seq<char> {
    what
        + " has sub-nodes; inserting into an interior node needs index B-tree maintenance, which is not implemented"@
}

/// Refuses a node whose entries point at sub-nodes. Its entries end with the
/// number of the sub-node, which a new entry does not have.
pub fn refuse_if_interior(flags: u8, what: &str) -> (res: Result<(), String>)
    ensures
        match res {
            Ok(_) => flags % 2 == 0,
            Err(m) => flags % 2 == 1 && m@ == interior_text(what@),
        },
{
    if flags % 2 == 1 {
        return Err(
            what.to_owned().concat(
                " has sub-nodes; inserting into an interior node needs index B-tree maintenance, which is not implemented",
            ),
        );
    }
    Ok(())
}

/// The place of a new name among the entries from `at` on: before the first
/// that it does not come behind.
pub open spec fn place_from(
    b: Seq<u8>,
    at: int,
    end: int,
    new: Seq<u16>,
    table: Option<Seq<u16>>,
    malformed: Seq<char>,
) -> Result<int, Seq<char>>
    decreases b.len() - at,
{
    let length = index_io::entry_length(b, at);
    if !index_io::in_entries(at, end, b.len() as int) || index_io::is_last(b, at) {
        Ok(at)
    } else if length <= 0 || at + length > b.len() {
        Err(malformed)
    } else {
        match index_io::name_in_entry(b, at, length) {
            Err(m) => Err(m),
            Ok(u) => if names::order(new, u, table) > 0 {
                place_from(b, at + length, end, new, table, malformed)
            } else {
                Ok(at)
            },
        }
    }
}

/// Finds the place of a new name among the entries from `start` on.
fn find_place(
    buf: &[u8],
    start: usize,
    end: usize,
    new: &[u16],
    upcase: Option<&UpcaseTable>,
    malformed: &str,
) -> (res: Result<usize, String>)
    requires
        start <= end <= buf.len(),
    ensures
        match (
            res,
            place_from(
                buf@,
                start as int,
                end as int,
                new@,
                names::table_view(upcase),
                malformed@,
            ),
        ) {
            (Ok(v), Ok(w)) => v == w && start <= v <= buf.len(),
            (Err(m), Err(w)) => m@ == w,
            _ => false,
        },
{
    let size: usize = buf.len();
    let ghost table = names::table_view(upcase);
    let mut at: usize = start;
    while at < end && size - at >= IE_KEY_START
        invariant
            size == buf.len(),
            start <= at <= size,
            table == names::table_view(upcase),
            place_from(buf@, at as int, end as int, new@, table, malformed@) == place_from(
                buf@,
                start as int,
                end as int,
                new@,
                table,
                malformed@,
            ),
        decreases size - at,
    {
        let length: usize = get_u16(buf, at + IE_LENGTH) as usize;
        let flags: u16 = get_u16(buf, at + IE_FLAGS);
        if (flags / 2) % 2 == 1 {
            return Ok(at);
        }
        if length == 0 || length > size - at {
            return Err(malformed.to_owned());
        }
        let existing = match entry_name(buf, at, length) {
            Ok(u) => u,
            Err(m) => {
                return Err(m);
            },
        };
        if !comes_behind(new, existing.as_slice(), upcase) {
            return Ok(at);
        }
        at = at + length;
    }
    Ok(at)
}

/// `b` with `e` put in at `at`: what stood in `[at, end)` follows it.
pub open spec fn spliced_in(b: Seq<u8>, at: int, end: int, e: Seq<u8>) -> Seq<u8> {
    bytes::patch(attr_resize::shifted(b, at, end, at + e.len()), at, e)
}

fn splice_in(buf: &mut [u8], at: usize, end: usize, e: &[u8])
    requires
        at <= end,
        end + e.len() <= old(buf).len(),
    ensures
        final(buf)@ == spliced_in(old(buf)@, at as int, end as int, e@),
{
    let size: usize = buf.len();
    move_bytes(buf, at, end, at + e.len());
    write_bytes(buf, at, e);
    assert(buf@ =~= spliced_in(old(buf)@, at as int, end as int, e@));
}

/// Where a new name goes in a directory's `$INDEX_ROOT`, or why it cannot go
/// there.
pub open spec fn place_in_root(r: Seq<u8>, new: Seq<u16>, table: Option<Seq<u16>>) -> Result<
    (AttrLocation, int),
    Seq<char>,
> {
    match index_io::index_root(r) {
        None => Err("$INDEX_ROOT:$I30 missing"@),
        Some(ir) => {
            let len = ir.resident_value_length->Some_0 as int;
            let ih = index_io::root_header(ir);
            let first = index_io::first_entry(r, ih);
            let total = index_io::total_size(r, ih);
            if !ir.is_resident {
                Err("no value_offset"@)
            } else if len < IR_INDEX_HEADER_OFFSET {
                Err(too_short_text(len))
            } else if ih + total > index_io::value_end(ir) {
                Err(
                    "the index says its entries end past its own "@ + text::dec(len as nat)
                        + "-byte value"@,
                )
            } else if first > total {
                Err(first_past_end_text(first, total))
            } else if r[ih + IH_FLAGS_OFFSET] % 2 == 1 {
                Err(interior_text("$INDEX_ROOT:$I30"@))
            } else {
                match place_from(
                    r,
                    ih + first,
                    ih + total,
                    new,
                    table,
                    "malformed index during insert"@,
                ) {
                    Ok(at) => Ok((ir, at)),
                    Err(m) => Err(m),
                }
            }
        },
    }
}

/// The first entry that a header names is past the end of its entries.
pub open spec fn first_past_end_text(first: int, total: int) -> Seq<char> {
    "the index says its first entry is "@ + text::dec(first as nat) + " bytes in, past the "@
        + text::dec(total as nat) + " bytes of entries it has"@
}

/// `s`, which has room for it, with `e` put in at `at`, among entries that ended
/// with the value's `old_len` bytes and that the header counted as `total`.
pub open spec fn put_into_root(
    s: Seq<u8>,
    ir: AttrLocation,
    at: int,
    old_len: int,
    total: int,
    e: Seq<u8>,
) -> Seq<u8> {
    let start = index_io::value_start(ir);
    let ih = index_io::root_header(ir);
    bytes::patch(
        bytes::patch(
            spliced_in(s, at, start + old_len, e),
            ih + IH_TOTAL_SIZE_OF_ENTRIES,
            bytes::bytes32(total + e.len()),
        ),
        ih + IH_ALLOCATED_SIZE_OF_ENTRIES,
        bytes::bytes32(total + e.len()),
    )
}

/// The record after an entry was put into its `$INDEX_ROOT`, and whether it
/// could be.
pub open spec fn inserted_in_root(
    r: Seq<u8>,
    e: Seq<u8>,
    new: Seq<u16>,
    table: Option<Seq<u16>>,
) -> (Seq<u8>, Result<(), Seq<char>>) {
    match place_in_root(r, new, table) {
        Err(m) => (r, Err(m)),
        Ok((ir, at)) => {
            let old_len = ir.resident_value_length->Some_0 as int;
            let total = index_io::total_size(r, index_io::root_header(ir));
            match attr_resize::resized(r, ir.attr_offset as int, old_len + e.len()) {
                Err(m) => (r, Err(m)),
                Ok(s) => match index_io::index_root(s) {
                    None => (s, Err("$INDEX_ROOT vanished"@)),
                    Some(ir2) => if !ir2.is_resident {
                        (s, Err("no value_offset"@))
                    } else {
                        (
                            put_into_root(
                                s,
                                ir2,
                                index_io::value_start(ir2) + at - index_io::value_start(ir),
                                old_len,
                                total,
                                e,
                            ),
                            Ok(()),
                        )
                    },
                },
            }
        },
    }
}

/// The inputs on which the insertion into an `$INDEX_ROOT` is defined: the
/// fields that it reads and writes are inside the record, and the place that it
/// finds is inside the value.
pub open spec fn insert_root_defined(
    r: Seq<u8>,
    e: Seq<u8>,
    new: Seq<u16>,
    table: Option<Seq<u16>>,
) -> bool {
    &&& match index_io::index_root(r) {
        Some(ir) => {
            let ih = index_io::root_header(ir);
            let total = index_io::total_size(r, ih);
            ir.is_resident && ir.resident_value_length->Some_0 >= IR_INDEX_HEADER_OFFSET ==> {
                &&& ih + IH_TOTAL_SIZE_OF_ENTRIES + 4 <= r.len()
                &&& ih + total <= index_io::value_end(ir) && index_io::first_entry(r, ih) <= total
                    ==> ih + IH_FLAGS_OFFSET < r.len()
            }
        },
        None => true,
    }
    &&& match place_in_root(r, new, table) {
        Ok((ir, at)) => {
            let old_len = ir.resident_value_length->Some_0 as int;
            &&& old_len + e.len() <= u32::MAX
            &&& attr_resize::resize_defined(r, ir.attr_offset as int, old_len + e.len())
            &&& match attr_resize::resized(r, ir.attr_offset as int, old_len + e.len()) {
                Ok(s) => match index_io::index_root(s) {
                    Some(ir2) => ir2.is_resident ==> {
                        let start = index_io::value_start(ir2);
                        &&& at <= index_io::value_start(ir) + old_len
                        &&& start + old_len + e.len() <= s.len()
                        &&& index_io::root_header(ir2) + IH_ALLOCATED_SIZE_OF_ENTRIES + 4
                            <= s.len()
                    },
                    None => true,
                },
                Err(_) => true,
            }
        },
        Err(_) => true,
    }
}

fn first_past_end(first: u32, total: u32) -> (s: String)
    ensures
        s@ == first_past_end_text(first as int, total as int),
{
    "the index says its first entry is ".to_owned().concat(decimal(first as u64).as_str()).concat(
        " bytes in, past the ",
    ).concat(decimal(total as u64).as_str()).concat(" bytes of entries it has")
}

/// Finds where a new name goes in a directory's `$INDEX_ROOT`.
fn find_place_in_root(record: &[u8], units: &[u16], upcase: Option<&UpcaseTable>) -> (res: Result<
    (AttrLocation, usize),
    String,
>)
    requires
        match index_io::index_root(record@) {
            Some(ir) => {
                let ih = index_io::root_header(ir);
                let total = index_io::total_size(record@, ih);
                ir.is_resident && ir.resident_value_length->Some_0 >= IR_INDEX_HEADER_OFFSET ==> {
                    &&& ih + IH_TOTAL_SIZE_OF_ENTRIES + 4 <= record.len()
                    &&& ih + total <= index_io::value_end(ir) && index_io::first_entry(record@, ih)
                        <= total ==> ih + IH_FLAGS_OFFSET < record.len()
                }
            },
            None => true,
        },
    ensures
        match (res, place_in_root(record@, units@, names::table_view(upcase))) {
            (Ok(v), Ok(w)) => {
                &&& v.0 == w.0
                &&& v.1 == w.1
                &&& v.0.is_resident
                &&& attr_io::within_record(v.0, record@)
                &&& index_io::root_header(v.0) <= v.1
            },
            (Err(m), Err(w)) => m@ == w,
            _ => false,
        },
{
    let size: usize = record.len();
    let ir = match find_attribute(record, AttrType::IndexRoot, Some("$I30")) {
        Some(ir) => ir,
        None => {
            return Err("$INDEX_ROOT:$I30 missing".to_owned());
        },
    };
    let off: u16 = match ir.resident_value_offset {
        Some(v) => v,
        None => {
            return Err("no value_offset".to_owned());
        },
    };
    let len: u32 = match ir.resident_value_length {
        Some(v) => v,
        None => {
            return Err("no value_length".to_owned());
        },
    };
    if (len as usize) < IR_INDEX_HEADER_OFFSET {
        return Err(
            "$INDEX_ROOT:$I30 value is ".to_owned().concat(decimal(len as u64).as_str()).concat(
                " bytes, too short to hold an index",
            ),
        );
    }
    let ih: usize = ir.attr_offset + off as usize + IR_INDEX_HEADER_OFFSET;
    let first: u32 = get_u32(record, ih + IH_FIRST_ENTRY_OFFSET);
    let total: u32 = get_u32(record, ih + IH_TOTAL_SIZE_OF_ENTRIES);
    if total as usize > len as usize - IR_INDEX_HEADER_OFFSET {
        return Err(
            "the index says its entries end past its own ".to_owned().concat(
                decimal(len as u64).as_str(),
            ).concat("-byte value"),
        );
    }
    if first > total {
        return Err(first_past_end(first, total));
    }
    match refuse_if_interior(record[ih + IH_FLAGS_OFFSET], "$INDEX_ROOT:$I30") {
        Ok(_) => {},
        Err(m) => {
            return Err(m);
        },
    }
    match find_place(
        record,
        ih + first as usize,
        ih + total as usize,
        units,
        upcase,
        "malformed index during insert",
    ) {
        Ok(at) => Ok((ir, at)),
        Err(m) => Err(m),
    }
}

/// Puts an entry into a directory's `$INDEX_ROOT`, before the first entry that
/// its name does not come behind. The attribute grows by the entry.
pub fn insert_entry_into_index_root_with_collation(
    record: &mut [u8],
    entry_bytes: &[u8],
    new_name: &str,
    upcase: Option<&UpcaseTable>,
) -> (res: Result<(), String>)
    requires
        insert_root_defined(
            old(record)@,
            entry_bytes@,
            utf16::encoded(new_name@),
            names::table_view(upcase),
        ),
    ensures
        came_out(
            final(record)@,
            res,
            inserted_in_root(
                old(record)@,
                entry_bytes@,
                utf16::encoded(new_name@),
                names::table_view(upcase),
            ),
        ),
{
    let units = encode_utf16(new_name);
    let (ir, at): (AttrLocation, usize) = match find_place_in_root(
        record,
        units.as_slice(),
        upcase,
    ) {
        Ok(v) => v,
        Err(m) => {
            return Err(m);
        },
    };
    let size: usize = record.len();
    let n: usize = entry_bytes.len();
    let old_len: u32 = match ir.resident_value_length {
        Some(v) => v,
        None => 0,
    };
    let off: u16 = match ir.resident_value_offset {
        Some(v) => v,
        None => 0,
    };
    let start: usize = ir.attr_offset + off as usize;
    let total: u32 = get_u32(record, start + IR_INDEX_HEADER_OFFSET + IH_TOTAL_SIZE_OF_ENTRIES);
    match resize_resident_value(record, ir.attr_offset, old_len + n as u32) {
        Ok(_) => {},
        Err(m) => {
            return Err(m);
        },
    }
    let ir2 = match find_attribute(record, AttrType::IndexRoot, Some("$I30")) {
        Some(v) => v,
        None => {
            return Err("$INDEX_ROOT vanished".to_owned());
        },
    };
    let off2: u16 = match ir2.resident_value_offset {
        Some(v) => v,
        None => {
            return Err("no value_offset".to_owned());
        },
    };
    put_entry(record, &ir2, off2, at - start, old_len, total, entry_bytes);
    Ok(())
}

/// Puts an entry into the value of `ir`, `place` bytes in.
fn put_entry(
    record: &mut [u8],
    ir: &AttrLocation,
    off: u16,
    place: usize,
    old_len: u32,
    total: u32,
    e: &[u8],
)
    requires
        ir.resident_value_offset == Some(off),
        place <= old_len,
        total <= old_len,
        old_len + e.len() <= u32::MAX,
        ir.attr_offset + off + old_len + e.len() <= old(record).len(),
        index_io::root_header(*ir) + IH_ALLOCATED_SIZE_OF_ENTRIES + 4 <= old(record).len(),
    ensures
        final(record)@ == put_into_root(
            old(record)@,
            *ir,
            ir.attr_offset + off + place,
            old_len as int,
            total as int,
            e@,
        ),
{
    let size: usize = record.len();
    let start: usize = ir.attr_offset + off as usize;
    let ih: usize = start + IR_INDEX_HEADER_OFFSET;
    let now: u32 = total + e.len() as u32;
    splice_in(record, start + place, start + old_len as usize, e);
    put_u32(record, ih + IH_TOTAL_SIZE_OF_ENTRIES, now);
    put_u32(record, ih + IH_ALLOCATED_SIZE_OF_ENTRIES, now);
}

/// `insert_entry_into_index_root_with_collation` without a table: ASCII letters
/// alone are folded.
pub fn insert_entry_into_index_root(record: &mut [u8], entry_bytes: &[u8], new_name: &str) -> (res:
    Result<(), String>)
    requires
        insert_root_defined(old(record)@, entry_bytes@, utf16::encoded(new_name@), None),
    ensures
        came_out(
            final(record)@,
            res,
            inserted_in_root(old(record)@, entry_bytes@, utf16::encoded(new_name@), None),
        ),
{
    insert_entry_into_index_root_with_collation(record, entry_bytes, new_name, None)
}

/// The block after an entry was put into it, or why it cannot be.
pub open spec fn inserted_in_block(
    b: Seq<u8>,
    e: Seq<u8>,
    new: Seq<u16>,
    table: Option<Seq<u16>>,
) -> Result<Seq<u8>, Seq<char>> {
    let ih = INDX_INDEX_HEADER_OFFSET as int;
    let first = index_io::first_entry(b, ih);
    let total = index_io::total_size(b, ih);
    let room = bytes::le32(b, ih + IH_ALLOCATED_SIZE_OF_ENTRIES);
    if !index_io::is_indx(b) {
        Err("not an INDX block"@)
    } else if ih + IH_FIRST_ENTRY_OFFSET + 4 > b.len() {
        Err("INDX block too short to read first_entry_offset"@)
    } else if ih + IH_TOTAL_SIZE_OF_ENTRIES + 4 > b.len() {
        Err("INDX block too short to read total_size"@)
    } else if ih + room > b.len() {
        Err(
            "the index says its entries are allocated "@ + text::dec(room as nat)
                + " bytes, past the "@ + text::dec((b.len() - ih) as nat) + " the block has"@,
        )
    } else if total > room {
        Err(
            "the index says it holds "@ + text::dec(total as nat) + " bytes of entries in "@
                + text::dec(room as nat) + " bytes of space"@,
        )
    } else if first > total {
        Err(first_past_end_text(first, total))
    } else if first < INDEX_HEADER_SIZE || first % 8 != 0 {
        Err(
            "the index says its first entry is "@ + text::dec(first as nat)
                + " bytes in, which is not an entry boundary"@,
        )
    } else if b[ih + IH_FLAGS_OFFSET] % 2 == 1 {
        Err(interior_text("this INDX block"@))
    } else if total + e.len() > room {
        Err(
            "INDX block has no room: total_size="@ + text::dec(total as nat) + " + new="@
                + text::dec(e.len()) + " > allocated="@ + text::dec(room as nat),
        )
    } else {
        match place_from(
            b,
            ih + first,
            ih + total,
            new,
            table,
            "malformed INDX entry during insert"@,
        ) {
            Err(m) => Err(m),
            Ok(at) => Ok(
                bytes::patch(
                    spliced_in(b, at, ih + total, e),
                    ih + IH_TOTAL_SIZE_OF_ENTRIES,
                    bytes::bytes32(total + e.len()),
                ),
            ),
        }
    }
}

/// The inputs on which the insertion into an INDX block is defined: a block
/// that is one holds the whole of the sizes in its header, and no entry before
/// the place of the new one reaches past the end of the entries.
pub open spec fn insert_block_defined(
    b: Seq<u8>,
    e: Seq<u8>,
    new: Seq<u16>,
    table: Option<Seq<u16>>,
) -> bool {
    let ih = INDX_INDEX_HEADER_OFFSET as int;
    &&& b.len() >= 4
    &&& index_io::is_indx(b) && ih + IH_TOTAL_SIZE_OF_ENTRIES + 4 <= b.len() ==> ih
        + IH_ALLOCATED_SIZE_OF_ENTRIES + 4 <= b.len()
    &&& inserted_in_block(b, e, new, table) is Ok ==> place_from(
        b,
        ih + index_io::first_entry(b, ih),
        ih + index_io::total_size(b, ih),
        new,
        table,
        "malformed INDX entry during insert"@,
    )->Ok_0 <= ih + index_io::total_size(b, ih)
}

/// Puts an entry into an INDX block, before the first entry that its name does
/// not come behind.
pub fn insert_entry_into_indx_block_with_collation(
    block: &mut [u8],
    entry_bytes: &[u8],
    new_name: &str,
    upcase: Option<&UpcaseTable>,
) -> (res: Result<(), String>)
    requires
        insert_block_defined(
            old(block)@,
            entry_bytes@,
            utf16::encoded(new_name@),
            names::table_view(upcase),
        ),
    ensures
        attr_resize::changed(
            old(block)@,
            final(block)@,
            res,
            inserted_in_block(
                old(block)@,
                entry_bytes@,
                utf16::encoded(new_name@),
                names::table_view(upcase),
            ),
        ),
{
    if !has_indx_magic(block) {
        return Err("not an INDX block".to_owned());
    }
    let ih: usize = INDX_INDEX_HEADER_OFFSET;
    let size: usize = block.len();
    if size < ih + IH_FIRST_ENTRY_OFFSET + 4 {
        return Err("INDX block too short to read first_entry_offset".to_owned());
    }
    if size < ih + IH_TOTAL_SIZE_OF_ENTRIES + 4 {
        return Err("INDX block too short to read total_size".to_owned());
    }
    let first: u32 = get_u32(block, ih + IH_FIRST_ENTRY_OFFSET);
    let total: u32 = get_u32(block, ih + IH_TOTAL_SIZE_OF_ENTRIES);
    let room: u32 = get_u32(block, ih + IH_ALLOCATED_SIZE_OF_ENTRIES);
    if room as usize > size - ih {
        return Err(
            "the index says its entries are allocated ".to_owned().concat(
                decimal(room as u64).as_str(),
            ).concat(" bytes, past the ").concat(decimal((size - ih) as u64).as_str()).concat(
                " the block has",
            ),
        );
    }
    if total > room {
        return Err(
            "the index says it holds ".to_owned().concat(decimal(total as u64).as_str()).concat(
                " bytes of entries in ",
            ).concat(decimal(room as u64).as_str()).concat(" bytes of space"),
        );
    }
    if first > total {
        return Err(first_past_end(first, total));
    }
    if (first as usize) < INDEX_HEADER_SIZE || first % 8 != 0 {
        return Err(
            "the index says its first entry is ".to_owned().concat(
                decimal(first as u64).as_str(),
            ).concat(" bytes in, which is not an entry boundary"),
        );
    }
    match refuse_if_interior(block[ih + IH_FLAGS_OFFSET], "this INDX block") {
        Ok(_) => {},
        Err(m) => {
            return Err(m);
        },
    }
    let n: usize = entry_bytes.len();
    if n > (room - total) as usize {
        return Err(
            "INDX block has no room: total_size=".to_owned().concat(
                decimal(total as u64).as_str(),
            ).concat(" + new=").concat(decimal(n as u64).as_str()).concat(" > allocated=").concat(
                decimal(room as u64).as_str(),
            ),
        );
    }
    let units = encode_utf16(new_name);
    let at: usize = match find_place(
        block,
        ih + first as usize,
        ih + total as usize,
        units.as_slice(),
        upcase,
        "malformed INDX entry during insert",
    ) {
        Ok(at) => at,
        Err(m) => {
            return Err(m);
        },
    };
    splice_in(block, at, ih + total as usize, entry_bytes);
    put_u32(block, ih + IH_TOTAL_SIZE_OF_ENTRIES, total + n as u32);
    Ok(())
}

/// `insert_entry_into_indx_block_with_collation` without a table: ASCII letters
/// alone are folded.
pub fn insert_entry_into_indx_block(block: &mut [u8], entry_bytes: &[u8], new_name: &str) -> (res:
    Result<(), String>)
    requires
        insert_block_defined(old(block)@, entry_bytes@, utf16::encoded(new_name@), None),
    ensures
        attr_resize::changed(
            old(block)@,
            final(block)@,
            res,
            inserted_in_block(old(block)@, entry_bytes@, utf16::encoded(new_name@), None),
        ),
{
    insert_entry_into_indx_block_with_collation(block, entry_bytes, new_name, None)
}

/// The attribute is a resident `$FILE_NAME` whose name, inside its value, is
/// `units`.
pub open spec fn file_name_is(r: Seq<u8>, loc: AttrLocation, units: Seq<u16>) -> bool {
    let start = index_io::value_start(loc);
    &&& loc.type_code == AttrType::FileName.code()
    &&& loc.resident_value_offset is Some
    &&& loc.resident_value_length is Some
    &&& FN_NAME_OFFSET <= loc.resident_value_length->Some_0
    &&& r[start + FN_NAME_LENGTH_OFFSET] == units.len()
    &&& FN_NAME_OFFSET + 2 * units.len() <= loc.resident_value_length->Some_0
    &&& attr_io::units_at(r, start + FN_NAME_OFFSET, units.len() as int) == units
}

/// The first of `locs` that is a `$FILE_NAME` with the name `units`.
pub open spec fn first_file_name(r: Seq<u8>, locs: Seq<AttrLocation>, units: Seq<u16>) -> Option<
    AttrLocation,
>
    decreases locs.len(),
{
    if locs.len() == 0 {
        None
    } else if file_name_is(r, locs[0], units) {
        Some(locs[0])
    } else {
        first_file_name(r, locs.skip(1), units)
    }
}

/// The record after its first `$FILE_NAME` with the old name was given a new
/// one of the same length, or why it cannot be.
pub open spec fn file_name_renamed(r: Seq<u8>, old_name: Seq<char>, new_name: Seq<char>) -> Result<
    Seq<u8>,
    Seq<char>,
> {
    let was = utf16::encoded(old_name);
    let now = utf16::encoded(new_name);
    if now.len() != was.len() {
        Err("same-length rename required on $FILE_NAME"@)
    } else {
        match first_file_name(r, attr_io::attributes(r), was) {
            None => Err(
                "no matching $FILE_NAME attribute with old name '"@ + old_name + "' of length "@
                    + text::dec(was.len()),
            ),
            Some(loc) => Ok(
                bytes::patch(r, index_io::value_start(loc) + FN_NAME_OFFSET, unit_bytes(now)),
            ),
        }
    }
}

fn same_units(a: &[u16], b: &[u16]) -> (yes: bool)
    ensures
        yes == (a@ == b@),
{
    if a.len() != b.len() {
        return false;
    }
    let n: usize = a.len();
    let mut i: usize = 0;
    while i < n
        invariant
            n == a.len(),
            n == b.len(),
            i <= n,
            forall|k: int| 0 <= k < i ==> a@[k] == b@[k],
        decreases n - i,
    {
        if a[i] != b[i] {
            return false;
        }
        i = i + 1;
    }
    assert(a@ =~= b@);
    true
}

/// Whether the attribute is a `$FILE_NAME` with the name `units`.
fn has_file_name(record: &[u8], loc: &AttrLocation, units: &[u16]) -> (yes: bool)
    requires
        attr_io::within_record(*loc, record@),
    ensures
        yes == file_name_is(record@, *loc, units@),
{
    if loc.type_code != AttrType::FileName.to_u32() {
        return false;
    }
    let off: u16 = match loc.resident_value_offset {
        Some(v) => v,
        None => {
            return false;
        },
    };
    let len: u32 = match loc.resident_value_length {
        Some(v) => v,
        None => {
            return false;
        },
    };
    let size: usize = record.len();
    if (len as usize) < FN_NAME_OFFSET {
        return false;
    }
    let start: usize = loc.attr_offset + off as usize;
    let n: usize = record[start + FN_NAME_LENGTH_OFFSET] as usize;
    if FN_NAME_OFFSET + n * 2 > len as usize || n != units.len() {
        return false;
    }
    let current = read_units(record, start + FN_NAME_OFFSET, n);
    same_units(current.as_slice(), units)
}

/// Overwrites the name in the first of the file's own `$FILE_NAME` attributes
/// that has the old one, with another of the same length.
pub fn rename_filename_attribute_same_length(
    record: &mut [u8],
    old_name: &str,
    new_name: &str,
) -> (res: Result<(), String>)
    ensures
        attr_resize::changed(
            old(record)@,
            final(record)@,
            res,
            file_name_renamed(old(record)@, old_name@, new_name@),
        ),
{
    let was = encode_utf16(old_name);
    let now = encode_utf16(new_name);
    if now.len() != was.len() {
        return Err("same-length rename required on $FILE_NAME".to_owned());
    }
    let locs = iter_attributes(record);
    let size: usize = record.len();
    let mut i: usize = 0;
    let ghost r = record@;
    proof {
        attr_io::lemma_attributes_are_within(r);
        assert(locs@.skip(0) =~= locs@);
    }
    while i < locs.len()
        invariant
            record@ == r,
            r == old(record)@,
            size == record.len(),
            locs@ == attr_io::attributes(r),
            was@ == utf16::encoded(old_name@),
            now@ == utf16::encoded(new_name@),
            now@.len() == was@.len(),
            i <= locs.len(),
            forall|k: int| 0 <= k < locs@.len() ==> attr_io::within_record(#[trigger] locs@[k], r),
            first_file_name(r, locs@.skip(i as int), was@) == first_file_name(r, locs@, was@),
        decreases locs.len() - i,
    {
        let loc = locs[i];
        proof {
            assert(attr_io::within_record(locs@[i as int], r));
            assert(locs@.skip(i as int)[0] == loc);
            assert(locs@.skip(i as int).skip(1) =~= locs@.skip(i + 1));
        }
        if has_file_name(record, &loc, was.as_slice()) {
            let off: usize = match loc.resident_value_offset {
                Some(v) => v as usize,
                None => 0,
            };
            write_units(record, loc.attr_offset + off + FN_NAME_OFFSET, now.as_slice());
            return Ok(());
        }
        i = i + 1;
    }
    Err(
        "no matching $FILE_NAME attribute with old name '".to_owned().concat(old_name).concat(
            "' of length ",
        ).concat(decimal(was.len() as u64).as_str()),
    )
}

} // verus!
