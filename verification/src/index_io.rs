//! Entries of a directory index, in the `$INDEX_ROOT` of a file record or in
//! an INDX block.
//!
//! An index node is an index header and the entries behind it. The header says
//! where the first entry is and where the entries end, each counted from the
//! header; an entry says how long it is; and the last one is marked as such.
//! Whatever the header says, the entries end where the thing that holds them
//! does. Records and blocks are clean (post-fixup).

use vstd::prelude::*;

use crate::attr_io;
use crate::attr_io::{find_attribute, read_units, AttrLocation, AttrType};
use crate::bytes;
use crate::bytes::{get_u16, get_u32, get_u64};
use crate::names;
use crate::names::names_match;
use crate::text;
use crate::text::decimal;
use crate::upcase::UpcaseTable;
use crate::utf16;
use crate::utf16::{encode_utf16, from_utf16_lossy};

pub use crate::index_edit::{
    build_file_name_index_entry, insert_entry_into_index_root,
    insert_entry_into_index_root_with_collation, insert_entry_into_indx_block,
    insert_entry_into_indx_block_with_collation, refuse_if_interior, remove_index_entry,
    rename_filename_attribute_same_length, rename_index_entry_same_length, BlockKind,
};
pub use crate::names::{compare_names, compare_names_ordinal};

verus! {

/// Offset of the index header within the value of an `$INDEX_ROOT`.
pub const IR_INDEX_HEADER_OFFSET: usize = 16;

/// Offset of the index header within an INDX block.
pub const INDX_INDEX_HEADER_OFFSET: usize = 0x18;

/// Offsets within the index header.
pub const IH_FIRST_ENTRY_OFFSET: usize = 0;

pub const IH_TOTAL_SIZE_OF_ENTRIES: usize = 4;

pub const IH_ALLOCATED_SIZE_OF_ENTRIES: usize = 8;

pub const IH_FLAGS_OFFSET: usize = 0x0C;

/// Header flag: some entry points at a sub-node.
pub const IH_FLAG_HAS_SUBNODES: u8 = 0x01;

pub const INDEX_HEADER_SIZE: usize = 0x10;

/// Offsets within an entry.
pub const IE_FILE_REFERENCE: usize = 0x00;

pub const IE_LENGTH: usize = 0x08;

pub const IE_KEY_LENGTH: usize = 0x0A;

pub const IE_FLAGS: usize = 0x0C;

pub const IE_KEY_START: usize = 0x10;

/// Offsets within a `$FILE_NAME` key.
pub const FN_FILE_ATTRIBUTES_OFFSET: usize = 0x38;

pub const FN_NAME_LENGTH_OFFSET: usize = 0x40;

pub const FN_NAMESPACE_OFFSET: usize = 0x41;

pub const FN_NAME_OFFSET: usize = 0x42;

/// The length of the entry at `at`.
pub open spec fn entry_length(b: Seq<u8>, at: int) -> int {
    bytes::le16(b, at + IE_LENGTH)
}

/// The length of the key of the entry at `at`.
pub open spec fn key_length(b: Seq<u8>, at: int) -> int {
    bytes::le16(b, at + IE_KEY_LENGTH)
}

/// The entry at `at` is marked as the last: bit 1 of its flags.
pub open spec fn is_last(b: Seq<u8>, at: int) -> bool {
    (bytes::le16(b, at + IE_FLAGS) / 2) % 2 == 1
}

/// The entry at `at` points at a sub-node: bit 0 of its flags.
pub open spec fn has_child(b: Seq<u8>, at: int) -> bool {
    bytes::le16(b, at + IE_FLAGS) % 2 == 1
}

/// The name in the entry at `at`, which says that it is `length` bytes long.
pub open spec fn name_in_entry(b: Seq<u8>, at: int, length: int) -> Result<Seq<u16>, Seq<char>> {
    let n = b[at + IE_KEY_START + FN_NAME_LENGTH_OFFSET] as int;
    let start = at + IE_KEY_START + FN_NAME_OFFSET;
    if at + IE_KEY_START + FN_NAME_LENGTH_OFFSET >= b.len() {
        Err("index entry ends before its name length"@)
    } else if start + 2 * n > at + length || start + 2 * n > b.len() {
        Err(
            "index entry at "@ + text::dec(at as nat) + " says its name is "@ + text::dec(n as nat)
                + " characters, which runs past the "@ + text::dec(length as nat) + "-byte entry"@,
        )
    } else {
        Ok(attr_io::units_at(b, start, n))
    }
}

/// The name in the entry at `at`, or none where it is not inside the entry.
pub open spec fn name_or_empty(b: Seq<u8>, at: int, length: int) -> Seq<u16> {
    match name_in_entry(b, at, length) {
        Ok(u) => u,
        Err(_) => Seq::empty(),
    }
}

/// Reads the name of the entry at `cursor`, bounded by the entry.
pub fn entry_name(buf: &[u8], cursor: usize, length: usize) -> (res: Result<Vec<u16>, String>)
    requires
        cursor <= buf.len(),
    ensures
        match (res, name_in_entry(buf@, cursor as int, length as int)) {
            (Ok(u), Ok(w)) => u@ == w,
            (Err(m), Err(w)) => m@ == w,
            _ => false,
        },
{
    let size: usize = buf.len();
    if size - cursor <= IE_KEY_START + FN_NAME_LENGTH_OFFSET {
        return Err("index entry ends before its name length".to_owned());
    }
    let n: usize = buf[cursor + IE_KEY_START + FN_NAME_LENGTH_OFFSET] as usize;
    let reach: usize = IE_KEY_START + FN_NAME_OFFSET + n * 2;
    if reach > length || reach > size - cursor {
        return Err(
            "index entry at ".to_owned().concat(decimal(cursor as u64).as_str()).concat(
                " says its name is ",
            ).concat(decimal(n as u64).as_str()).concat(
                " characters, which runs past the ",
            ).concat(decimal(length as u64).as_str()).concat("-byte entry"),
        );
    }
    Ok(read_units(buf, cursor + IE_KEY_START + FN_NAME_OFFSET, n))
}

/// One located entry.
#[derive(Debug, Clone, Copy)]
pub struct IndexEntryLocation {
    /// Byte offset of the entry within the record or block.
    pub record_offset: usize,
    /// Entry length in bytes.
    pub length: usize,
    /// Length of the `$FILE_NAME` key in bytes.
    pub key_length: usize,
    /// The file record that the entry points to: the low 48 bits of the file
    /// reference.
    pub file_record_number: u64,
    /// The sequence number of the reference: its high 16 bits.
    pub sequence: u16,
    /// Length of the name in UTF-16 code units.
    pub name_length: u8,
}

/// The low 48 bits of a file reference.
pub open spec fn record_number(reference: int) -> int {
    reference % 0x1_0000_0000_0000
}

/// The high 16 bits of a file reference.
pub open spec fn sequence_number(reference: int) -> int {
    reference / 0x1_0000_0000_0000
}

/// What the entry at `at` says of itself.
pub open spec fn entry_at(b: Seq<u8>, at: int) -> IndexEntryLocation {
    IndexEntryLocation {
        record_offset: at as usize,
        length: entry_length(b, at) as usize,
        key_length: key_length(b, at) as usize,
        file_record_number: record_number(bytes::le64(b, at + IE_FILE_REFERENCE)) as u64,
        sequence: sequence_number(bytes::le64(b, at + IE_FILE_REFERENCE)) as u16,
        name_length: name_or_empty(b, at, entry_length(b, at)).len() as u8,
    }
}

/// The entry at `at` has a key with the name `wanted`.
pub open spec fn is_named(
    b: Seq<u8>,
    at: int,
    wanted: Seq<u16>,
    table: Option<Seq<u16>>,
) -> bool {
    &&& key_length(b, at) >= FN_NAME_OFFSET
    &&& names::same(name_or_empty(b, at, entry_length(b, at)), wanted, table)
}

/// There is an entry to look at: the entries do not end at `at`, and a whole
/// entry header is before `limit`.
pub open spec fn in_entries(at: int, end: int, limit: int) -> bool {
    at < end && at + IE_KEY_START <= limit
}

/// The first entry from `at` on that is named `wanted`.
pub open spec fn found_from(
    b: Seq<u8>,
    at: int,
    end: int,
    limit: int,
    wanted: Seq<u16>,
    table: Option<Seq<u16>>,
) -> Result<Option<IndexEntryLocation>, Seq<char>>
    decreases limit - at,
{
    let length = entry_length(b, at);
    if !in_entries(at, end, limit) || is_last(b, at) {
        Ok(None)
    } else if length <= 0 || at + length > limit {
        Err("malformed index entry at "@ + text::dec(at as nat))
    } else if is_named(b, at, wanted, table) {
        Ok(Some(entry_at(b, at)))
    } else {
        found_from(b, at + length, end, limit, wanted, table)
    }
}

/// `got` is `want`, with a string for a sequence.
pub open spec fn agrees<T>(got: Result<T, String>, want: Result<T, Seq<char>>) -> bool {
    match (got, want) {
        (Ok(v), Ok(w)) => v == w,
        (Err(m), Err(w)) => m@ == w,
        _ => false,
    }
}

/// The location of the entry at `at`, whose name has `name_length` units.
fn locate(buf: &[u8], at: usize, name_length: usize) -> (loc: IndexEntryLocation)
    requires
        at + IE_KEY_START <= buf.len(),
        name_length == name_or_empty(buf@, at as int, entry_length(buf@, at as int)).len(),
    ensures
        loc == entry_at(buf@, at as int),
{
    let reference: u64 = get_u64(buf, at + IE_FILE_REFERENCE);
    IndexEntryLocation {
        record_offset: at,
        length: get_u16(buf, at + IE_LENGTH) as usize,
        key_length: get_u16(buf, at + IE_KEY_LENGTH) as usize,
        file_record_number: reference % 0x1_0000_0000_0000,
        sequence: (reference / 0x1_0000_0000_0000) as u16,
        name_length: name_length as u8,
    }
}

/// Sweeps the entries from `start` on for one named `wanted`.
fn scan_entries_for_name(
    buf: &[u8],
    start: usize,
    end: usize,
    limit: usize,
    wanted: &str,
    upcase: Option<&UpcaseTable>,
) -> (res: Result<Option<IndexEntryLocation>, String>)
    requires
        limit <= buf.len(),
    ensures
        agrees(
            res,
            found_from(
                buf@,
                start as int,
                end as int,
                limit as int,
                utf16::encoded(wanted@),
                names::table_view(upcase),
            ),
        ),
{
    let units = encode_utf16(wanted);
    let ghost table = names::table_view(upcase);
    let mut at: usize = start;
    while at < end && at <= limit && limit - at >= IE_KEY_START
        invariant
            limit <= buf.len(),
            units@ == utf16::encoded(wanted@),
            table == names::table_view(upcase),
            found_from(buf@, at as int, end as int, limit as int, units@, table) == found_from(
                buf@,
                start as int,
                end as int,
                limit as int,
                units@,
                table,
            ),
        decreases limit - at,
    {
        let length: usize = get_u16(buf, at + IE_LENGTH) as usize;
        let key: usize = get_u16(buf, at + IE_KEY_LENGTH) as usize;
        let flags: u16 = get_u16(buf, at + IE_FLAGS);
        if (flags / 2) % 2 == 1 {
            return Ok(None);
        }
        if length == 0 || length > limit - at {
            return Err(
                "malformed index entry at ".to_owned().concat(decimal(at as u64).as_str()),
            );
        }
        if key >= FN_NAME_OFFSET {
            let name: Vec<u16> = match entry_name(buf, at, length) {
                Ok(u) => u,
                Err(_) => Vec::new(),
            };
            if names_match(name.as_slice(), units.as_slice(), upcase) {
                return Ok(Some(locate(buf, at, name.len())));
            }
        }
        at = at + length;
    }
    Ok(None)
}

/// Where the value of the `$INDEX_ROOT` at `ir` ends, or why it has no end in
/// the record.
pub open spec fn value_end_of(record: Seq<u8>, ir: AttrLocation) -> Result<int, Seq<char>> {
    let off = ir.resident_value_offset->Some_0;
    let len = ir.resident_value_length->Some_0;
    if ir.resident_value_offset is None {
        Err("$INDEX_ROOT has no value_offset"@)
    } else if ir.resident_value_length is None {
        Err("$INDEX_ROOT has no value_length"@)
    } else if ir.attr_offset + off + len > record.len() {
        Err(
            "$INDEX_ROOT value ["@ + text::dec(ir.attr_offset as nat) + "+"@ + text::dec(off as nat)
                + ", +"@ + text::dec(len as nat) + ") runs past the "@ + text::dec(record.len())
                + "-byte record"@,
        )
    } else {
        Ok(ir.attr_offset + off + len)
    }
}

/// The exclusive end of an `$INDEX_ROOT`'s value.
pub(crate) fn index_root_value_end(record: &[u8], ir: &AttrLocation) -> (res: Result<usize, String>)
    ensures
        match (res, value_end_of(record@, *ir)) {
            (Ok(v), Ok(w)) => v == w,
            (Err(m), Err(w)) => m@ == w,
            _ => false,
        },
{
    let off: u16 = match ir.resident_value_offset {
        Some(v) => v,
        None => {
            return Err("$INDEX_ROOT has no value_offset".to_owned());
        },
    };
    let len: u32 = match ir.resident_value_length {
        Some(v) => v,
        None => {
            return Err("$INDEX_ROOT has no value_length".to_owned());
        },
    };
    let size: usize = record.len();
    if ir.attr_offset <= size && off as u64 + len as u64 <= (size - ir.attr_offset) as u64 {
        return Ok(ir.attr_offset + off as usize + len as usize);
    }
    Err(
        "$INDEX_ROOT value [".to_owned().concat(decimal(ir.attr_offset as u64).as_str()).concat(
            "+",
        ).concat(decimal(off as u64).as_str()).concat(", +").concat(
            decimal(len as u64).as_str(),
        ).concat(") runs past the ").concat(decimal(size as u64).as_str()).concat("-byte record"),
    )
}

/// The `$INDEX_ROOT` of a directory's index.
pub open spec fn index_root(record: Seq<u8>) -> Option<AttrLocation> {
    attr_io::found_attribute(record, AttrType::IndexRoot, Some("$I30"@))
}

/// Where the value of a resident attribute starts.
pub open spec fn value_start(ir: AttrLocation) -> int {
    ir.attr_offset + ir.resident_value_offset->Some_0
}

/// Where the value of a resident attribute ends.
pub open spec fn value_end(ir: AttrLocation) -> int {
    value_start(ir) + ir.resident_value_length->Some_0
}

/// Where the index header of an `$INDEX_ROOT` is.
pub open spec fn root_header(ir: AttrLocation) -> int {
    value_start(ir) + IR_INDEX_HEADER_OFFSET
}

/// The offset of the first entry from the index header at `ih`.
pub open spec fn first_entry(b: Seq<u8>, ih: int) -> int {
    bytes::le32(b, ih + IH_FIRST_ENTRY_OFFSET)
}

/// The end of the entries, counted from the index header at `ih`.
pub open spec fn total_size(b: Seq<u8>, ih: int) -> int {
    bytes::le32(b, ih + IH_TOTAL_SIZE_OF_ENTRIES)
}

pub open spec fn lesser(a: int, b: int) -> int {
    if a < b {
        a
    } else {
        b
    }
}

/// What `find_index_entry` gives.
pub open spec fn found_in_root(record: Seq<u8>, wanted: Seq<u16>, table: Option<Seq<u16>>) -> Result<
    Option<IndexEntryLocation>,
    Seq<char>,
> {
    match index_root(record) {
        None => Err("$INDEX_ROOT:$I30 not found"@),
        Some(ir) => {
            let ih = root_header(ir);
            let limit = value_end(ir);
            if !ir.is_resident {
                Err("$INDEX_ROOT is non-resident (impossible per spec)"@)
            } else if ih + INDEX_HEADER_SIZE > limit {
                Err(
                    "$INDEX_ROOT value is too short for an index header: header at "@ + text::dec(
                        ih as nat,
                    ) + ", value ends at "@ + text::dec(limit as nat),
                )
            } else {
                found_from(
                    record,
                    ih + first_entry(record, ih),
                    lesser(ih + total_size(record, ih), limit),
                    limit,
                    wanted,
                    table,
                )
            }
        },
    }
}

/// The sum, or the greatest number there is.
fn reach(a: usize, b: u32) -> (r: usize)
    ensures
        r == lesser(a + b, usize::MAX as int),
{
    a.saturating_add(b as usize)
}

/// A walk that starts past the end of the entries, however far, finds nothing.
proof fn lemma_found_past_end(
    b: Seq<u8>,
    at: int,
    end: int,
    limit: int,
    wanted: Seq<u16>,
    table: Option<Seq<u16>>,
)
    requires
        limit <= usize::MAX,
    ensures
        found_from(b, lesser(at, usize::MAX as int), end, limit, wanted, table) == found_from(
            b,
            at,
            end,
            limit,
            wanted,
            table,
        ),
        found_from(b, at, lesser(end, usize::MAX as int), limit, wanted, table) == found_from(
            b,
            at,
            end,
            limit,
            wanted,
            table,
        ),
    decreases limit - at,
{
    let length = entry_length(b, at);
    if in_entries(at, end, limit) && !is_last(b, at) && length > 0 && at + length <= limit {
        lemma_found_past_end(b, at + length, end, limit, wanted, table);
    }
}

/// Walks the `$INDEX_ROOT` of a directory for the entry whose name is `wanted`
/// in the order of the index. Sub-nodes are not searched.
pub fn find_index_entry(record: &[u8], wanted: &str, upcase: Option<&UpcaseTable>) -> (res: Result<
    Option<IndexEntryLocation>,
    String,
>)
    ensures
        agrees(
            res,
            found_in_root(record@, utf16::encoded(wanted@), names::table_view(upcase)),
        ),
{
    let ir = match find_attribute(record, AttrType::IndexRoot, Some("$I30")) {
        Some(ir) => ir,
        None => {
            return Err("$INDEX_ROOT:$I30 not found".to_owned());
        },
    };
    if !ir.is_resident {
        return Err("$INDEX_ROOT is non-resident (impossible per spec)".to_owned());
    }
    let off: u16 = match ir.resident_value_offset {
        Some(v) => v,
        None => {
            return Err("no value_offset".to_owned());
        },
    };
    let limit: usize = match index_root_value_end(record, &ir) {
        Ok(v) => v,
        Err(m) => {
            return Err(m);
        },
    };
    let size: usize = record.len();
    let data: usize = ir.attr_offset + off as usize;
    if limit - data < IR_INDEX_HEADER_OFFSET + INDEX_HEADER_SIZE {
        return Err(
            "$INDEX_ROOT value is too short for an index header: header at ".to_owned().concat(
                decimal_sum(data, IR_INDEX_HEADER_OFFSET).as_str(),
            ).concat(", value ends at ").concat(decimal(limit as u64).as_str()),
        );
    }
    let ih: usize = data + IR_INDEX_HEADER_OFFSET;
    let first: u32 = get_u32(record, ih + IH_FIRST_ENTRY_OFFSET);
    let total: u32 = get_u32(record, ih + IH_TOTAL_SIZE_OF_ENTRIES);
    let start: usize = reach(ih, first);
    let end_raw: usize = reach(ih, total);
    let end: usize = if end_raw < limit {
        end_raw
    } else {
        limit
    };
    proof {
        lemma_found_past_end(
            record@,
            ih + first,
            end as int,
            limit as int,
            utf16::encoded(wanted@),
            names::table_view(upcase),
        );
    }
    scan_entries_for_name(record, start, end, limit, wanted, upcase)
}

/// `a + b` in decimal.
pub(crate) fn decimal_sum(a: usize, b: usize) -> (s: String)
    ensures
        s@ == text::dec((a + b) as nat),
{
    text::decimal_wide(a as u128 + b as u128)
}

/// What `find_entry_in_indx_block` gives.
pub open spec fn found_in_block(block: Seq<u8>, wanted: Seq<u16>, table: Option<Seq<u16>>) -> Result<
    Option<IndexEntryLocation>,
    Seq<char>,
> {
    let ih = INDX_INDEX_HEADER_OFFSET as int;
    if !is_indx(block) {
        Err("not an INDX block (fixup missing?)"@)
    } else if ih + IH_FIRST_ENTRY_OFFSET + 4 > block.len() {
        Err("INDX block too short to read first_entry_offset"@)
    } else if ih + IH_TOTAL_SIZE_OF_ENTRIES + 4 > block.len() {
        Err("INDX block too short to read total_size"@)
    } else {
        found_from(
            block,
            ih + first_entry(block, ih),
            ih + total_size(block, ih),
            block.len() as int,
            wanted,
            table,
        )
    }
}

/// The block begins with the letters of its kind.
pub open spec fn is_indx(block: Seq<u8>) -> bool {
    block[0] == 0x49 && block[1] == 0x4E && block[2] == 0x44 && block[3] == 0x58
}

pub(crate) fn has_indx_magic(block: &[u8]) -> (yes: bool)
    requires
        block.len() >= 4,
    ensures
        yes == is_indx(block@),
{
    block[0] == 0x49 && block[1] == 0x4E && block[2] == 0x44 && block[3] == 0x58
}

/// Scans a clean INDX block for the entry whose name is `wanted`. The place of
/// the entry is relative to the block.
pub fn find_entry_in_indx_block(block: &[u8], wanted: &str, upcase: Option<&UpcaseTable>) -> (res:
    Result<Option<IndexEntryLocation>, String>)
    requires
        block.len() >= 4,
    ensures
        agrees(
            res,
            found_in_block(block@, utf16::encoded(wanted@), names::table_view(upcase)),
        ),
{
    if !has_indx_magic(block) {
        return Err("not an INDX block (fixup missing?)".to_owned());
    }
    let ih: usize = INDX_INDEX_HEADER_OFFSET;
    let size: usize = block.len();
    if size < ih + IH_FIRST_ENTRY_OFFSET + 4 {
        return Err("INDX block too short to read first_entry_offset".to_owned());
    }
    if size < ih + IH_TOTAL_SIZE_OF_ENTRIES + 4 {
        return Err("INDX block too short to read total_size".to_owned());
    }
    let first: u32 = get_u32(block, ih + IH_FIRST_ENTRY_OFFSET);
    let total: u32 = get_u32(block, ih + IH_TOTAL_SIZE_OF_ENTRIES);
    let start: usize = reach(ih, first);
    let end: usize = reach(ih, total);
    proof {
        let w = utf16::encoded(wanted@);
        let t = names::table_view(upcase);
        lemma_found_past_end(block@, ih + first, ih + total, size as int, w, t);
        lemma_found_past_end(block@, start as int, ih + total, size as int, w, t);
    }
    scan_entries_for_name(block, start, end, size, wanted, upcase)
}

/// What `index_root_has_real_entries` gives.
pub open spec fn real_entries(record: Seq<u8>) -> Result<bool, Seq<char>> {
    match index_root(record) {
        None => Err("$INDEX_ROOT:$I30 not found"@),
        Some(ir) => {
            let ih = root_header(ir);
            let limit = value_end(ir);
            let first = ih + first_entry(record, ih);
            let end = lesser(ih + total_size(record, ih), limit);
            if !ir.is_resident {
                Err("$INDEX_ROOT unexpectedly non-resident"@)
            } else if ih + IH_FIRST_ENTRY_OFFSET + 4 > record.len() {
                Err("index header too short to read first_entry_offset"@)
            } else if ih + IH_TOTAL_SIZE_OF_ENTRIES + 4 > record.len() {
                Err("index header too short to read total_size"@)
            } else if first + IE_KEY_START > end {
                Err(
                    "$INDEX_ROOT header is unreadable: first entry at "@ + text::dec(first as nat)
                        + ", entries end at "@ + text::dec(end as nat) + ", value ends at "@
                        + text::dec(limit as nat),
                )
            } else {
                Ok(!is_last(record, first))
            }
        },
    }
}

/// Whether the directory's `$INDEX_ROOT` has an entry that is not the last
/// one's mark. An index that cannot be read is not an empty one.
pub fn index_root_has_real_entries(record: &[u8]) -> (res: Result<bool, String>)
    ensures
        agrees(res, real_entries(record@)),
{
    let ir = match find_attribute(record, AttrType::IndexRoot, Some("$I30")) {
        Some(ir) => ir,
        None => {
            return Err("$INDEX_ROOT:$I30 not found".to_owned());
        },
    };
    if !ir.is_resident {
        return Err("$INDEX_ROOT unexpectedly non-resident".to_owned());
    }
    let off: u16 = match ir.resident_value_offset {
        Some(v) => v,
        None => {
            return Err("no value_offset".to_owned());
        },
    };
    let limit: usize = match index_root_value_end(record, &ir) {
        Ok(v) => v,
        Err(m) => {
            return Err(m);
        },
    };
    let size: usize = record.len();
    let data: usize = ir.attr_offset + off as usize;
    if size - data < IR_INDEX_HEADER_OFFSET + IH_FIRST_ENTRY_OFFSET + 4 {
        return Err("index header too short to read first_entry_offset".to_owned());
    }
    if size - data < IR_INDEX_HEADER_OFFSET + IH_TOTAL_SIZE_OF_ENTRIES + 4 {
        return Err("index header too short to read total_size".to_owned());
    }
    let ih: usize = data + IR_INDEX_HEADER_OFFSET;
    let first: u128 = ih as u128 + get_u32(record, ih + IH_FIRST_ENTRY_OFFSET) as u128;
    let end_raw: u128 = ih as u128 + get_u32(record, ih + IH_TOTAL_SIZE_OF_ENTRIES) as u128;
    let end: u128 = if end_raw < limit as u128 {
        end_raw
    } else {
        limit as u128
    };
    if first + IE_KEY_START as u128 > end {
        return Err(
            "$INDEX_ROOT header is unreadable: first entry at ".to_owned().concat(
                text::decimal_wide(first).as_str(),
            ).concat(", entries end at ").concat(text::decimal_wide(end).as_str()).concat(
                ", value ends at ",
            ).concat(decimal(limit as u64).as_str()),
        );
    }
    let flags: u16 = get_u16(record, first as usize + IE_FLAGS);
    Ok((flags / 2) % 2 == 0)
}

/// The flags of the directory's index header, where its `$INDEX_ROOT` is
/// resident and its value holds a whole header.
pub open spec fn root_flags(record: Seq<u8>) -> Option<u8> {
    match index_root(record) {
        Some(ir) => if ir.is_resident && root_header(ir) + INDEX_HEADER_SIZE <= value_end(ir) {
            Some(record[root_header(ir) + IH_FLAGS_OFFSET])
        } else {
            None
        },
        None => None,
    }
}

/// Reads the flags of the directory's index header. `None` means that there is
/// no header to read them from, not that the index has no sub-nodes.
pub fn index_root_flags(record: &[u8]) -> (flags: Option<u8>)
    ensures
        flags == root_flags(record@),
{
    let ir = match find_attribute(record, AttrType::IndexRoot, Some("$I30")) {
        Some(ir) => ir,
        None => {
            return None;
        },
    };
    if !ir.is_resident {
        return None;
    }
    let off: u16 = match ir.resident_value_offset {
        Some(v) => v,
        None => {
            return None;
        },
    };
    let limit: usize = match index_root_value_end(record, &ir) {
        Ok(v) => v,
        Err(_) => {
            return None;
        },
    };
    let size: usize = record.len();
    let data: usize = ir.attr_offset + off as usize;
    if limit - data < IR_INDEX_HEADER_OFFSET + INDEX_HEADER_SIZE {
        return None;
    }
    Some(record[data + IR_INDEX_HEADER_OFFSET + IH_FLAGS_OFFSET])
}

/// One entry of a directory as a listing sees it.
#[derive(Debug, Clone)]
pub struct DirEntryRaw {
    /// The file record of the target: the low 48 bits of the file reference.
    pub file_record_number: u64,
    /// The name, with U+FFFD for every unpaired surrogate.
    pub name: String,
    /// Namespace: 0 POSIX, 1 Win32, 2 DOS, 3 Win32 and DOS.
    pub namespace: u8,
    /// The entry's copy of the file attributes.
    pub file_attributes: u32,
}

/// What a `DirEntryRaw` says.
pub struct DirEntryView {
    pub file_record_number: u64,
    pub name: Seq<char>,
    pub namespace: u8,
    pub file_attributes: u32,
}

impl View for DirEntryRaw {
    type V = DirEntryView;

    open spec fn view(&self) -> DirEntryView {
        DirEntryView {
            file_record_number: self.file_record_number,
            name: self.name@,
            namespace: self.namespace,
            file_attributes: self.file_attributes,
        }
    }
}

/// The entry at `at` has a key, and the key a name, each inside what holds it.
pub open spec fn is_listed(b: Seq<u8>, at: int) -> bool {
    let n = b[at + IE_KEY_START + FN_NAME_LENGTH_OFFSET] as int;
    &&& key_length(b, at) >= FN_NAME_OFFSET
    &&& IE_KEY_START + key_length(b, at) <= entry_length(b, at)
    &&& FN_NAME_OFFSET + 2 * n <= key_length(b, at)
}

/// What a listing says of the entry at `at`.
pub open spec fn listed_at(b: Seq<u8>, at: int) -> DirEntryView {
    let key = at + IE_KEY_START;
    let n = b[key + FN_NAME_LENGTH_OFFSET] as int;
    DirEntryView {
        file_record_number: record_number(bytes::le64(b, at + IE_FILE_REFERENCE)) as u64,
        name: utf16::decoded_lossy(attr_io::units_at(b, key + FN_NAME_OFFSET, n)),
        namespace: b[key + FN_NAMESPACE_OFFSET],
        file_attributes: bytes::le32(b, key + FN_FILE_ATTRIBUTES_OFFSET) as u32,
    }
}

/// The entries that a listing collects from `at` on, and what ends it where
/// that is not the end of the entries.
pub open spec fn listed_from(b: Seq<u8>, at: int, end: int, limit: int) -> (
    Seq<DirEntryView>,
    Option<Seq<char>>,
)
    decreases limit - at,
{
    let length = entry_length(b, at);
    if !in_entries(at, end, limit) || is_last(b, at) {
        (Seq::empty(), None)
    } else if length <= 0 || at + length > limit {
        (Seq::empty(), Some("malformed index entry at "@ + text::dec(at as nat)))
    } else {
        let (rest, e) = listed_from(b, at + length, end, limit);
        if is_listed(b, at) {
            (seq![listed_at(b, at)] + rest, e)
        } else {
            (rest, e)
        }
    }
}

/// The entries of the node whose index header is at `ih` and which ends at
/// `limit`, and what ended the listing.
pub open spec fn listed_in_node(b: Seq<u8>, ih: int, limit: int) -> (
    Seq<DirEntryView>,
    Option<Seq<char>>,
) {
    if ih + INDEX_HEADER_SIZE > limit {
        (
            Seq::empty(),
            Some(
                "index node is too short for an index header: header at "@ + text::dec(ih as nat)
                    + ", node ends at "@ + text::dec(limit as nat),
            ),
        )
    } else {
        listed_from(
            b,
            ih + first_entry(b, ih),
            lesser(ih + total_size(b, ih), limit),
            limit,
        )
    }
}

/// The views of a list of entries.
pub open spec fn views(entries: Seq<DirEntryRaw>) -> Seq<DirEntryView> {
    Seq::new(entries.len(), |i: int| entries[i]@)
}

/// `out` grew by what was listed, and `got` says what ended the listing.
pub open spec fn appended(
    before: Seq<DirEntryRaw>,
    after: Seq<DirEntryRaw>,
    got: Result<(), String>,
    want: (Seq<DirEntryView>, Option<Seq<char>>),
) -> bool {
    &&& after.len() == before.len() + want.0.len()
    &&& forall|i: int| 0 <= i < before.len() ==> #[trigger] after[i] == before[i]
    &&& views(after.skip(before.len() as int)) == want.0
    &&& match (got, want.1) {
        (Ok(_), None) => true,
        (Err(m), Some(w)) => m@ == w,
        _ => false,
    }
}

proof fn lemma_listed_past_end(b: Seq<u8>, at: int, end: int, limit: int)
    requires
        limit <= usize::MAX,
    ensures
        listed_from(b, lesser(at, usize::MAX as int), end, limit) == listed_from(b, at, end, limit),
{
}

/// The entry at `at`, for a listing.
fn list_entry(buf: &[u8], at: usize, limit: usize) -> (e: Option<DirEntryRaw>)
    requires
        at + IE_KEY_START <= limit <= buf.len(),
        at + entry_length(buf@, at as int) <= limit,
    ensures
        match e {
            Some(d) => is_listed(buf@, at as int) && d@ == listed_at(buf@, at as int),
            None => !is_listed(buf@, at as int),
        },
{
    let length: usize = get_u16(buf, at + IE_LENGTH) as usize;
    let key_len: usize = get_u16(buf, at + IE_KEY_LENGTH) as usize;
    if key_len < FN_NAME_OFFSET || IE_KEY_START + key_len > length {
        return None;
    }
    let key: usize = at + IE_KEY_START;
    let n: usize = buf[key + FN_NAME_LENGTH_OFFSET] as usize;
    if FN_NAME_OFFSET + n * 2 > key_len {
        return None;
    }
    let units = read_units(buf, key + FN_NAME_OFFSET, n);
    let reference: u64 = get_u64(buf, at + IE_FILE_REFERENCE);
    Some(
        DirEntryRaw {
            file_record_number: reference % 0x1_0000_0000_0000,
            name: from_utf16_lossy(units.as_slice()),
            namespace: buf[key + FN_NAMESPACE_OFFSET],
            file_attributes: get_u32(buf, key + FN_FILE_ATTRIBUTES_OFFSET),
        },
    )
}

/// Appends every entry with a name in one node to `out`. What holds the node
/// is `[start, limit)`, and its index header is `header` bytes in.
fn collect_entries(
    buf: &[u8],
    start: usize,
    header: usize,
    limit: usize,
    out: &mut Vec<DirEntryRaw>,
) -> (res: Result<(), String>)
    requires
        start <= limit <= buf.len(),
        header <= INDX_INDEX_HEADER_OFFSET,
    ensures
        appended(old(out)@, final(out)@, res, listed_in_node(buf@, start + header, limit as int)),
{
    let ghost want = listed_in_node(buf@, start + header, limit as int);
    let ghost before = out@;
    assert(views(before.skip(before.len() as int)) =~= Seq::<DirEntryView>::empty());
    if limit - start < header + INDEX_HEADER_SIZE {
        return Err(
            "index node is too short for an index header: header at ".to_owned().concat(
                decimal_sum(start, header).as_str(),
            ).concat(", node ends at ").concat(decimal(limit as u64).as_str()),
        );
    }
    let ih: usize = start + header;
    let first: u32 = get_u32(buf, ih + IH_FIRST_ENTRY_OFFSET);
    let total: u32 = get_u32(buf, ih + IH_TOTAL_SIZE_OF_ENTRIES);
    let mut at: usize = reach(ih, first);
    let end_raw: usize = reach(ih, total);
    let end: usize = if end_raw < limit {
        end_raw
    } else {
        limit
    };
    proof {
        lemma_listed_past_end(buf@, ih + first, end as int, limit as int);
        let rest = listed_from(buf@, at as int, end as int, limit as int);
        assert(Seq::<DirEntryView>::empty() + rest.0 =~= rest.0);
    }
    while at < end && at <= limit && limit - at >= IE_KEY_START
        invariant
            end <= limit <= buf.len(),
            before == old(out)@,
            want == listed_in_node(buf@, start + header, limit as int),
            before.len() <= out@.len(),
            forall|i: int| 0 <= i < before.len() ==> #[trigger] out@[i] == before[i],
            ({
                let rest = listed_from(buf@, at as int, end as int, limit as int);
                &&& views(out@.skip(before.len() as int)) + rest.0 == want.0
                &&& rest.1 == want.1
            }),
        decreases limit - at,
    {
        let ghost had = views(out@.skip(before.len() as int));
        let ghost rest = listed_from(buf@, at as int, end as int, limit as int);
        let length: usize = get_u16(buf, at + IE_LENGTH) as usize;
        let flags: u16 = get_u16(buf, at + IE_FLAGS);
        if (flags / 2) % 2 == 1 {
            assert(had + Seq::<DirEntryView>::empty() =~= had);
            return Ok(());
        }
        if length == 0 || length > limit - at {
            assert(had + Seq::<DirEntryView>::empty() =~= had);
            return Err(
                "malformed index entry at ".to_owned().concat(decimal(at as u64).as_str()),
            );
        }
        if let Some(d) = list_entry(buf, at, limit) {
            proof {
                let tail = listed_from(buf@, at + length, end as int, limit as int).0;
                assert(rest.0 == seq![d@] + tail);
                assert(had + (seq![d@] + tail) =~= had.push(d@) + tail);
            }
            out.push(d);
            assert(views(out@.skip(before.len() as int)) =~= had.push(d@));
        }
        at = at + length;
    }
    proof {
        let had = views(out@.skip(before.len() as int));
        assert(had + Seq::<DirEntryView>::empty() =~= had);
    }
    Ok(())
}

/// What `collect_index_root_entries` lists.
pub open spec fn listed_in_root(record: Seq<u8>) -> (Seq<DirEntryView>, Option<Seq<char>>) {
    match index_root(record) {
        None => (Seq::empty(), Some("$INDEX_ROOT:$I30 not found"@)),
        Some(ir) => if !ir.is_resident {
            (Seq::empty(), Some("no value_offset"@))
        } else {
            listed_in_node(record, root_header(ir), value_end(ir))
        },
    }
}

/// Lists the entries in a directory's `$INDEX_ROOT`. Where an entry is
/// malformed, those before it have been listed.
pub fn collect_index_root_entries(record: &[u8], out: &mut Vec<DirEntryRaw>) -> (res: Result<
    (),
    String,
>)
    ensures
        appended(old(out)@, final(out)@, res, listed_in_root(record@)),
{
    proof {
        assert(views(out@.skip(out@.len() as int)) =~= Seq::<DirEntryView>::empty());
    }
    let ir = match find_attribute(record, AttrType::IndexRoot, Some("$I30")) {
        Some(ir) => ir,
        None => {
            return Err("$INDEX_ROOT:$I30 not found".to_owned());
        },
    };
    let off: u16 = match ir.resident_value_offset {
        Some(v) => v,
        None => {
            return Err("no value_offset".to_owned());
        },
    };
    let limit: usize = match index_root_value_end(record, &ir) {
        Ok(v) => v,
        Err(m) => {
            return Err(m);
        },
    };
    let size: usize = record.len();
    collect_entries(record, ir.attr_offset + off as usize, IR_INDEX_HEADER_OFFSET, limit, out)
}

/// What `collect_indx_block_entries` lists.
pub open spec fn listed_in_block(block: Seq<u8>) -> (Seq<DirEntryView>, Option<Seq<char>>) {
    if block.len() < 4 || !is_indx(block) {
        (Seq::empty(), Some("not an INDX block (fixup missing?)"@))
    } else {
        listed_in_node(block, INDX_INDEX_HEADER_OFFSET as int, block.len() as int)
    }
}

/// Lists the entries in one clean INDX block. Where an entry is malformed,
/// those before it have been listed.
pub fn collect_indx_block_entries(block: &[u8], out: &mut Vec<DirEntryRaw>) -> (res: Result<
    (),
    String,
>)
    ensures
        appended(old(out)@, final(out)@, res, listed_in_block(block@)),
{
    if block.len() < 4 || !has_indx_magic(block) {
        proof {
            assert(views(out@.skip(out@.len() as int)) =~= Seq::<DirEntryView>::empty());
        }
        return Err("not an INDX block (fixup missing?)".to_owned());
    }
    collect_entries(block, 0, INDX_INDEX_HEADER_OFFSET, block.len(), out)
}

} // verus!
