//! Extended attributes: the contents of `$EA` and `$EA_INFORMATION`.
//!
//! An extended attribute is a name, a value and a byte of flags. `$EA` is a list
//! of entries, each of which begins at a multiple of four:
//!
//! - the offset of the next entry from this one, 32 bits, zero for the last;
//! - the flags, one byte;
//! - the length of the name, one byte;
//! - the length of the value, 16 bits;
//! - the name, and a zero byte;
//! - the value, and zero bytes up to a multiple of four.

use vstd::prelude::*;

use crate::attr_io;
use crate::attr_io::{find_attribute, AttrType};
use crate::bytes;
use crate::bytes::{copy_range, get_u16, get_u32, put_u16, put_u32};
use crate::text;
use crate::text::{decimal, decimal_wide};

verus! {

/// A file with this attribute is not to be used by what does not understand it.
pub const FLAG_NEED_EA: u8 = 0x80;

/// An extended attribute.
#[derive(Debug, Clone, PartialEq, Eq)]
pub struct Ea {
    pub flags: u8,
    pub name: Vec<u8>,
    pub value: Vec<u8>,
}

/// What an extended attribute holds.
pub struct EaView {
    pub flags: u8,
    pub name: Seq<u8>,
    pub value: Seq<u8>,
}

impl View for Ea {
    type V = EaView;

    open spec fn view(&self) -> EaView {
        EaView { flags: self.flags, name: self.name@, value: self.value@ }
    }
}

/// What the attributes of a list hold.
pub open spec fn views(eas: Seq<Ea>) -> Seq<EaView> {
    eas.map_values(|e: Ea| e@)
}

/// `n`, rounded up to a multiple of four.
pub open spec fn aligned(n: int) -> int {
    (n + 3) / 4 * 4
}

/// `n`, rounded up to a multiple of four.
pub fn align4(n: usize) -> (m: usize)
    requires
        n + 3 <= usize::MAX,
    ensures
        m == aligned(n as int),
{
    (n + 3) / 4 * 4
}

/// The size of an entry.
pub open spec fn entry_size(name_len: int, value_len: int) -> int {
    aligned(8 + name_len + 1 + value_len)
}

/// The size of an entry.
pub fn entry_encoded_size(name_len: usize, value_len: usize) -> (n: usize)
    requires
        name_len + value_len + 12 <= usize::MAX,
    ensures
        n == entry_size(name_len as int, value_len as int),
{
    align4(8 + name_len + 1 + value_len)
}

/// The bytes of an entry whose successor is `next` bytes further on.
pub open spec fn entry_bytes(ea: EaView, next: int) -> Seq<u8> {
    bytes::bytes32(next) + seq![ea.flags, ea.name.len() as u8] + bytes::bytes16(
        ea.value.len() as int,
    ) + ea.name + seq![0u8] + ea.value + bytes::run_of(
        0,
        entry_size(ea.name.len() as int, ea.value.len() as int) - (9 + ea.name.len()
            + ea.value.len()),
    )
}

/// The bytes of the entries from the `i`th on.
pub open spec fn encoded_from(eas: Seq<EaView>, i: int) -> Result<Seq<u8>, Seq<char>>
    decreases eas.len() - i,
{
    if i < 0 || i >= eas.len() {
        Ok(Seq::empty())
    } else if eas[i].name.len() > 254 {
        Err("ea name too long: "@ + text::dec(eas[i].name.len()))
    } else if eas[i].value.len() > 0xFFFF {
        Err("ea value too large: "@ + text::dec(eas[i].value.len()))
    } else {
        let next = if i == eas.len() - 1 {
            0
        } else {
            entry_size(eas[i].name.len() as int, eas[i].value.len() as int)
        };
        after(entry_bytes(eas[i], next), encoded_from(eas, i + 1))
    }
}

/// `want`, behind the bytes that are already there.
pub open spec fn after(had: Seq<u8>, want: Result<Seq<u8>, Seq<char>>) -> Result<
    Seq<u8>,
    Seq<char>,
> {
    match want {
        Ok(w) => Ok(had + w),
        Err(e) => Err(e),
    }
}

/// The bytes of a list, or what is wrong with the first attribute that has no
/// place in one.
pub open spec fn encoded(eas: Seq<EaView>) -> Result<Seq<u8>, Seq<char>> {
    encoded_from(eas, 0)
}

fn push_u16(out: &mut Vec<u8>, v: u16)
    ensures
        final(out)@ == old(out)@ + bytes::bytes16(v as int),
{
    let mut b: Vec<u8> = vec![0u8; 2];
    put_u16(b.as_mut_slice(), 0, v);
    let ghost had = out@;
    out.push(b[0]);
    out.push(b[1]);
    proof {
        assert(out@ =~= had + bytes::bytes16(v as int));
    }
}

fn push_u32(out: &mut Vec<u8>, v: u32)
    ensures
        final(out)@ == old(out)@ + bytes::bytes32(v as int),
{
    let mut b: Vec<u8> = vec![0u8; 4];
    put_u32(b.as_mut_slice(), 0, v);
    let ghost had = out@;
    out.push(b[0]);
    out.push(b[1]);
    out.push(b[2]);
    out.push(b[3]);
    proof {
        assert(out@ =~= had + bytes::bytes32(v as int));
    }
}

fn push_zeros(out: &mut Vec<u8>, n: usize)
    ensures
        final(out)@ == old(out)@ + bytes::run_of(0, n as int),
{
    let ghost had = out@;
    let mut k: usize = 0;
    proof {
        assert(out@ =~= had + bytes::run_of(0, 0));
    }
    while k < n
        invariant
            k <= n,
            out@ == had + bytes::run_of(0, k as int),
        decreases n - k,
    {
        out.push(0);
        proof {
            assert(out@ =~= had + bytes::run_of(0, k + 1));
        }
        k = k + 1;
    }
}

fn push_entry(out: &mut Vec<u8>, ea: &Ea, next: u32)
    requires
        ea.name.len() <= 254,
        ea.value.len() <= 0xFFFF,
    ensures
        final(out)@ == old(out)@ + entry_bytes(ea@, next as int),
{
    let name_len: usize = ea.name.len();
    let value_len: usize = ea.value.len();
    let pad: usize = entry_encoded_size(name_len, value_len) - (9 + name_len + value_len);
    let ghost had = out@;
    push_u32(out, next);
    let ghost s1 = bytes::bytes32(next as int);
    out.push(ea.flags);
    out.push(name_len as u8);
    let ghost s2 = s1 + seq![ea.flags, name_len as u8];
    assert(out@ =~= had + s2);
    push_u16(out, value_len as u16);
    let ghost s3 = s2 + bytes::bytes16(value_len as int);
    assert(out@ =~= had + s3);
    out.extend_from_slice(ea.name.as_slice());
    let ghost s4 = s3 + ea.name@;
    assert(out@ =~= had + s4);
    out.push(0);
    let ghost s5 = s4 + seq![0u8];
    assert(out@ =~= had + s5);
    out.extend_from_slice(ea.value.as_slice());
    let ghost s6 = s5 + ea.value@;
    assert(out@ =~= had + s6);
    push_zeros(out, pad);
    assert(out@ =~= had + (s6 + bytes::run_of(0, pad as int)));
}

/// Packs a list of extended attributes into the bytes of `$EA`.
pub fn encode(eas: &[Ea]) -> (res: Result<Vec<u8>, String>)
    ensures
        match (res, encoded(views(eas@))) {
            (Ok(v), Ok(w)) => v@ == w,
            (Err(m), Err(w)) => m@ == w,
            _ => false,
        },
{
    let mut out: Vec<u8> = Vec::new();
    let ghost list = views(eas@);
    let mut i: usize = 0;
    proof {
        let want = encoded(list);
        assert(want is Ok ==> out@ + want->Ok_0 =~= want->Ok_0);
    }
    while i < eas.len()
        invariant
            list == views(eas@),
            i <= eas@.len(),
            after(out@, encoded_from(list, i as int)) == encoded(list),
        decreases eas.len() - i,
    {
        let ea: &Ea = &eas[i];
        assert(list[i as int] == ea@);
        let name_len: usize = ea.name.len();
        let value_len: usize = ea.value.len();
        if name_len > 254 {
            return Err(
                "ea name too long: ".to_owned().concat(decimal(name_len as u64).as_str()),
            );
        }
        if value_len > 0xFFFF {
            return Err(
                "ea value too large: ".to_owned().concat(decimal(value_len as u64).as_str()),
            );
        }
        let entry_len: usize = entry_encoded_size(name_len, value_len);
        let next: usize = if i == eas.len() - 1 {
            0
        } else {
            entry_len
        };
        let ghost had = out@;
        push_entry(&mut out, ea, next as u32);
        proof {
            let rest = encoded_from(list, i + 1);
            let one = entry_bytes(ea@, next as int);
            assert(rest is Ok ==> had + (one + rest->Ok_0) =~= out@ + rest->Ok_0);
        }
        i = i + 1;
    }
    proof {
        assert(out@ + Seq::<u8>::empty() =~= out@);
    }
    Ok(out)
}

/// The entries from `cursor` on.
pub open spec fn decoded_from(b: Seq<u8>, cursor: int) -> Result<Seq<EaView>, Seq<char>>
    decreases b.len() - cursor,
{
    let next = bytes::le32(b, cursor);
    let name_start = cursor + 8;
    let value_start = name_start + b[cursor + 5] + 1;
    let value_end = value_start + bytes::le16(b, cursor + 6);
    let entry = EaView {
        flags: b[cursor + 4],
        name: b.subrange(name_start, value_start - 1),
        value: b.subrange(value_start, value_end),
    };
    if cursor < 0 || cursor + 8 > b.len() {
        Ok(Seq::empty())
    } else if value_end > b.len() {
        Err(
            "EA entry at "@ + text::dec(cursor as nat) + " extends past buffer ("@ + text::dec(
                value_end as nat,
            ) + " > "@ + text::dec(b.len()) + ")"@,
        )
    } else if next == 0 {
        Ok(seq![entry])
    } else if next < 8 || cursor + next > b.len() {
        Err(
            "EA entry at "@ + text::dec(cursor as nat) + " has invalid next_offset "@ + text::dec(
                next as nat,
            ),
        )
    } else {
        match decoded_from(b, cursor + next) {
            Ok(rest) => Ok(seq![entry] + rest),
            Err(m) => Err(m),
        }
    }
}

/// The list that the bytes of `$EA` hold.
pub open spec fn decoded(b: Seq<u8>) -> Result<Seq<EaView>, Seq<char>> {
    decoded_from(b, 0)
}

/// `want`, behind the attributes that are already there.
pub open spec fn after_entries(had: Seq<EaView>, want: Result<Seq<EaView>, Seq<char>>) -> Result<
    Seq<EaView>,
    Seq<char>,
> {
    match want {
        Ok(w) => Ok(had + w),
        Err(e) => Err(e),
    }
}

/// Unpacks the bytes of `$EA`.
pub fn decode(bytes: &[u8]) -> (res: Result<Vec<Ea>, String>)
    ensures
        match (res, decoded(bytes@)) {
            (Ok(v), Ok(w)) => views(v@) == w,
            (Err(m), Err(w)) => m@ == w,
            _ => false,
        },
{
    let size: usize = bytes.len();
    let mut out: Vec<Ea> = Vec::new();
    let mut cursor: usize = 0;
    proof {
        let want = decoded(bytes@);
        assert(views(out@) =~= Seq::<EaView>::empty());
        assert(want is Ok ==> views(out@) + want->Ok_0 =~= want->Ok_0);
    }
    while size - cursor >= 8
        invariant_except_break
            after_entries(views(out@), decoded_from(bytes@, cursor as int)) == decoded(bytes@),
        invariant
            size == bytes@.len(),
            cursor <= size,
        ensures
            decoded(bytes@) == Ok::<Seq<EaView>, Seq<char>>(views(out@)),
        decreases size - cursor,
    {
        let next: usize = get_u32(bytes, cursor) as usize;
        let flags: u8 = bytes[cursor + 4];
        let name_len: usize = bytes[cursor + 5] as usize;
        let value_len: usize = get_u16(bytes, cursor + 6) as usize;
        let room: usize = size - cursor;
        if 9 + name_len + value_len > room {
            return Err(
                "EA entry at ".to_owned().concat(decimal(cursor as u64).as_str()).concat(
                    " extends past buffer (",
                ).concat(
                    decimal_wide(
                        cursor as u128 + 9 + name_len as u128 + value_len as u128,
                    ).as_str(),
                ).concat(" > ").concat(decimal(size as u64).as_str()).concat(")"),
            );
        }
        let name_start: usize = cursor + 8;
        let value_start: usize = name_start + name_len + 1;
        let value_end: usize = value_start + value_len;
        let ghost had = views(out@);
        let entry = Ea {
            flags,
            name: copy_range(bytes, name_start, name_start + name_len),
            value: copy_range(bytes, value_start, value_end),
        };
        let ghost held = entry@;
        out.push(entry);
        proof {
            assert(views(out@) =~= had.push(held));
            assert(had + seq![held] =~= had.push(held));
            let rest = decoded_from(bytes@, cursor + next);
            assert(rest is Ok ==> had + (seq![held] + rest->Ok_0) =~= had.push(held)
                + rest->Ok_0);
        }
        if next == 0 {
            break ;
        }
        if next < 8 || next > room {
            return Err(
                "EA entry at ".to_owned().concat(decimal(cursor as u64).as_str()).concat(
                    " has invalid next_offset ",
                ).concat(decimal(next as u64).as_str()),
            );
        }
        cursor = cursor + next;
    }
    Ok(out)
}

/// The parts of an entry, each where a reader looks for it.
proof fn lemma_entry_reads_back(before: Seq<u8>, ea: EaView, next: int, tail: Seq<u8>)
    requires
        ea.name.len() <= 254,
        ea.value.len() <= 0xFFFF,
        0 <= next <= 0xFFFF_FFFF,
    ensures
        ({
            let b = before + (entry_bytes(ea, next) + tail);
            let at = before.len() as int;
            let value_start = at + 9 + ea.name.len();
            &&& entry_bytes(ea, next).len() == entry_size(
                ea.name.len() as int,
                ea.value.len() as int,
            )
            &&& bytes::le32(b, at) == next
            &&& b[at + 4] == ea.flags
            &&& b[at + 5] == ea.name.len()
            &&& bytes::le16(b, at + 6) == ea.value.len()
            &&& b.subrange(at + 8, value_start - 1) == ea.name
            &&& b.subrange(value_start, value_start + ea.value.len()) == ea.value
            &&& value_start + ea.value.len() <= b.len()
        }),
{
    let e = entry_bytes(ea, next);
    let b = before + (e + tail);
    let at = before.len() as int;
    let n = ea.name.len() as int;
    let v = ea.value.len() as int;
    assert(e.len() == entry_size(n, v));
    assert forall|i: int| 0 <= i < e.len() implies #[trigger] b[at + i] == e[i] by {}
    assert forall|i: int| 0 <= i < 4 implies #[trigger] e[i] == bytes::bytes32(next)[i] by {}
    assert(e[4] == ea.flags);
    assert(e[5] == n);
    assert(b[at + 0] == e[0] && b[at + 1] == e[1] && b[at + 2] == e[2] && b[at + 3] == e[3]);
    assert(b[at + 4] == e[4] && b[at + 5] == e[5]);
    assert(e[6] == bytes::bytes16(v)[0] && e[7] == bytes::bytes16(v)[1]);
    assert(b[at + 6] == e[6] && b[at + 7] == e[7]);
    assert(b.subrange(at + 8, at + 8 + n) =~= ea.name) by {
        assert forall|i: int| 0 <= i < n implies b[at + 8 + i] == ea.name[i] by {
            assert(b[at + (8 + i)] == e[8 + i]);
            assert(e[8 + i] == ea.name[i]);
        }
    }
    assert(b.subrange(at + 9 + n, at + 9 + n + v) =~= ea.value) by {
        assert forall|i: int| 0 <= i < v implies b[at + 9 + n + i] == ea.value[i] by {
            assert(b[at + (9 + n + i)] == e[9 + n + i]);
            assert(e[9 + n + i] == ea.value[i]);
        }
    }
}

proof fn lemma_decode_from(before: Seq<u8>, eas: Seq<EaView>, i: int)
    requires
        0 <= i < eas.len(),
        encoded_from(eas, i) is Ok,
    ensures
        decoded_from(before + encoded_from(eas, i)->Ok_0, before.len() as int) == Ok::<
            Seq<EaView>,
            Seq<char>,
        >(eas.skip(i)),
    decreases eas.len() - i,
{
    let ea = eas[i];
    let size = entry_size(ea.name.len() as int, ea.value.len() as int);
    let next = if i == eas.len() - 1 {
        0
    } else {
        size
    };
    let e = entry_bytes(ea, next);
    let rest = encoded_from(eas, i + 1)->Ok_0;
    let b = before + (e + rest);
    lemma_entry_reads_back(before, ea, next, rest);
    if i == eas.len() - 1 {
        assert(eas.skip(i) =~= seq![ea]);
    } else {
        assert(b =~= (before + e) + rest);
        lemma_decode_from(before + e, eas, i + 1);
        assert(eas.skip(i) =~= seq![ea] + eas.skip(i + 1));
    }
}

/// What a list was packed into unpacks to the list.
pub proof fn lemma_decode_of_encode(eas: Seq<EaView>)
    requires
        encoded(eas) is Ok,
    ensures
        decoded(encoded(eas)->Ok_0) == Ok::<Seq<EaView>, Seq<char>>(eas),
{
    if eas.len() == 0 {
        assert(eas =~= Seq::empty());
    } else {
        lemma_decode_from(Seq::empty(), eas, 0);
        assert(Seq::<u8>::empty() + encoded(eas)->Ok_0 =~= encoded(eas)->Ok_0);
        assert(eas.skip(0) =~= eas);
    }
}

/// The packed form is a multiple of four bytes long.
pub proof fn lemma_encoded_is_aligned(eas: Seq<EaView>)
    requires
        encoded(eas) is Ok,
    ensures
        encoded(eas)->Ok_0.len() % 4 == 0,
{
    lemma_aligned_from(eas, 0);
}

proof fn lemma_aligned_from(eas: Seq<EaView>, i: int)
    requires
        0 <= i,
        encoded_from(eas, i) is Ok,
    ensures
        encoded_from(eas, i)->Ok_0.len() % 4 == 0,
    decreases eas.len() - i,
{
    if i < eas.len() {
        let size = entry_size(eas[i].name.len() as int, eas[i].value.len() as int);
        let next = if i == eas.len() - 1 {
            0
        } else {
            size
        };
        lemma_entry_reads_back(Seq::empty(), eas[i], next, Seq::empty());
        lemma_aligned_from(eas, i + 1);
    }
}

/// The number of attributes, from the `i`th on, that have to be understood.
pub open spec fn needed_from(eas: Seq<Ea>, i: int) -> int
    decreases eas.len() - i,
{
    if i < 0 || i >= eas.len() {
        0
    } else {
        needed_from(eas, i + 1) + if eas[i].flags >= FLAG_NEED_EA {
            1int
        } else {
            0
        }
    }
}

/// Counts the attributes that have to be understood, as 32 bits hold it.
pub fn count_need_ea(eas: &[Ea]) -> (n: u32)
    ensures
        n == needed_from(eas@, 0) % 0x1_0000_0000,
{
    let mut count: usize = 0;
    let mut i: usize = 0;
    while i < eas.len()
        invariant
            i <= eas@.len(),
            count <= i,
            count + needed_from(eas@, i as int) == needed_from(eas@, 0),
        decreases eas.len() - i,
    {
        if eas[i].flags >= FLAG_NEED_EA {
            count = count + 1;
        }
        i = i + 1;
    }
    (count as u64 % 0x1_0000_0000) as u32
}

/// Builds the value of `$EA_INFORMATION`.
pub fn build_ea_information_value(packed_ea_length: u16, need_ea_count: u32) -> (v: Vec<u8>)
    ensures
        v@ == bytes::bytes16(packed_ea_length as int) + bytes::bytes16(packed_ea_length as int)
            + bytes::bytes32(need_ea_count as int),
{
    let mut v: Vec<u8> = Vec::new();
    push_u16(&mut v, packed_ea_length);
    push_u16(&mut v, packed_ea_length);
    push_u32(&mut v, need_ea_count);
    proof {
        assert(v@ =~= bytes::bytes16(packed_ea_length as int) + bytes::bytes16(
            packed_ea_length as int,
        ) + bytes::bytes32(need_ea_count as int));
    }
    v
}

/// The extended attributes of a file record.
pub open spec fn in_record(record: Seq<u8>) -> Result<Seq<EaView>, Seq<char>> {
    match attr_io::found_attribute(record, AttrType::ExtendedAttribute, None) {
        None => Ok(Seq::empty()),
        Some(loc) => if !loc.is_resident {
            Err("$EA is non-resident (MVP only supports resident EAs)"@)
        } else {
            let start = loc.attr_offset + loc.resident_value_offset->0;
            decoded(record.subrange(start, start + loc.resident_value_length->0))
        },
    }
}

/// Reads the extended attributes of a file record. Without `$EA` there are none.
/// One that is not in the record is not read.
pub fn read_from_record(record: &[u8]) -> (res: Result<Vec<Ea>, String>)
    ensures
        match (res, in_record(record@)) {
            (Ok(v), Ok(w)) => views(v@) == w,
            (Err(m), Err(w)) => m@ == w,
            _ => false,
        },
{
    let loc = match find_attribute(record, AttrType::ExtendedAttribute, None) {
        Some(loc) => loc,
        None => {
            let none: Vec<Ea> = Vec::new();
            assert(views(none@) =~= Seq::<EaView>::empty());
            return Ok(none);
        },
    };
    if !loc.is_resident {
        return Err("$EA is non-resident (MVP only supports resident EAs)".to_owned());
    }
    let offset: usize = match loc.resident_value_offset {
        Some(v) => v as usize,
        None => {
            return Err("no value_offset".to_owned());
        },
    };
    let len: usize = match loc.resident_value_length {
        Some(v) => v as usize,
        None => {
            return Err("no value_length".to_owned());
        },
    };
    let total: usize = record.len();
    let start: usize = loc.attr_offset + offset;
    decode(&record[start..start + len])
}

/// A letter of ASCII in lower case; any other byte as it is.
pub open spec fn lowered(b: u8) -> u8 {
    if 0x41 <= b <= 0x5A {
        (b + 0x20) as u8
    } else {
        b
    }
}

/// A name in lower case.
pub open spec fn folded(name: Seq<u8>) -> Seq<u8> {
    name.map_values(|b: u8| lowered(b))
}

fn lower(b: u8) -> (l: u8)
    ensures
        l == lowered(b),
{
    if 0x41 <= b && b <= 0x5A {
        b + 0x20
    } else {
        b
    }
}

/// The names are the same but for the case of their letters.
fn same_name(a: &[u8], b: &[u8]) -> (same: bool)
    ensures
        same == (folded(a@) == folded(b@)),
{
    if a.len() != b.len() {
        assert(folded(a@).len() != folded(b@).len());
        return false;
    }
    let mut i: usize = 0;
    while i < a.len()
        invariant
            a@.len() == b@.len(),
            i <= a@.len(),
            forall|k: int| 0 <= k < i ==> lowered(#[trigger] a@[k]) == lowered(b@[k]),
        decreases a.len() - i,
    {
        if lower(a[i]) != lower(b[i]) {
            assert(folded(a@)[i as int] != folded(b@)[i as int]);
            return false;
        }
        i = i + 1;
    }
    assert(folded(a@) =~= folded(b@));
    true
}

/// The first attribute, from the `i`th on, with the name, in whatever case.
pub open spec fn position_from(list: Seq<Ea>, name: Seq<u8>, i: int) -> Option<int>
    decreases list.len() - i,
{
    if i < 0 || i >= list.len() {
        None
    } else if folded(list[i].name@) == folded(name) {
        Some(i)
    } else {
        position_from(list, name, i + 1)
    }
}

/// The list with `entry` in the place of the first of its name, or at the end.
pub open spec fn upserted(list: Seq<Ea>, entry: Ea) -> Seq<Ea> {
    match position_from(list, entry.name@, 0) {
        Some(i) => list.update(i, entry),
        None => list.push(entry),
    }
}

/// Puts `entry` into the list: in the place of the one of its name, where there
/// is one, and otherwise at the end. The case of a name does not matter.
pub fn upsert(list: &mut Vec<Ea>, entry: Ea)
    ensures
        final(list)@ == upserted(old(list)@, entry),
{
    let mut i: usize = 0;
    while i < list.len()
        invariant
            i <= list@.len(),
            list@ == old(list)@,
            position_from(list@, entry.name@, i as int) == position_from(list@, entry.name@, 0),
        decreases list.len() - i,
    {
        if same_name(list[i].name.as_slice(), entry.name.as_slice()) {
            list.set(i, entry);
            return ;
        }
        i = i + 1;
    }
    list.push(entry);
}

/// The list without the attributes of the name.
pub open spec fn without(list: Seq<Ea>, name: Seq<u8>) -> Seq<Ea>
    decreases list.len(),
{
    if list.len() == 0 {
        Seq::empty()
    } else if folded(list.last().name@) == folded(name) {
        without(list.drop_last(), name)
    } else {
        without(list.drop_last(), name).push(list.last())
    }
}

/// Removes the attributes of the name, in whatever case. Says whether there were
/// any.
pub fn remove_by_name(list: &mut Vec<Ea>, name: &[u8]) -> (removed: bool)
    ensures
        final(list)@ == without(old(list)@, name@),
        removed == (final(list)@.len() != old(list)@.len()),
{
    let before: usize = list.len();
    let ghost old_list = list@;
    let ghost mut seen: int = 0;
    let mut i: usize = 0;
    proof {
        assert(old_list.take(0) =~= Seq::<Ea>::empty());
        assert(list@ =~= without(old_list.take(0), name@) + old_list.skip(0));
    }
    while i < list.len()
        invariant
            old_list == old(list)@,
            0 <= seen <= old_list.len(),
            list@ == without(old_list.take(seen), name@) + old_list.skip(seen),
            i == without(old_list.take(seen), name@).len(),
        decreases list.len() - i,
    {
        let ghost kept = without(old_list.take(seen), name@);
        let ghost now = list@;
        proof {
            assert(seen < old_list.len());
            assert(now[i as int] == old_list[seen]);
            assert(old_list.take(seen + 1).drop_last() =~= old_list.take(seen));
            assert(old_list.take(seen + 1).last() == old_list[seen]);
        }
        if same_name(list[i].name.as_slice(), name) {
            let gone = list.remove(i);
            proof {
                assert(list@ =~= kept + old_list.skip(seen + 1));
            }
        } else {
            proof {
                assert(list@ =~= kept.push(old_list[seen]) + old_list.skip(seen + 1));
            }
            i = i + 1;
        }
        proof {
            seen = seen + 1;
        }
    }
    proof {
        assert(old_list.skip(seen).len() == 0);
        assert(old_list.take(seen) =~= old_list);
        assert(list@ =~= without(old_list, name@));
    }
    list.len() != before
}

proof fn lemma_position(list: Seq<Ea>, name: Seq<u8>, i: int)
    requires
        0 <= i,
    ensures
        match position_from(list, name, i) {
            Some(k) => {
                &&& i <= k < list.len()
                &&& folded(list[k].name@) == folded(name)
                &&& forall|j: int|
                    i <= j < k ==> folded((#[trigger] list[j]).name@) != folded(name)
            },
            None => forall|j: int|
                i <= j < list.len() ==> folded((#[trigger] list[j]).name@) != folded(name),
        },
    decreases list.len() - i,
{
    if i < list.len() && folded(list[i].name@) != folded(name) {
        lemma_position(list, name, i + 1);
    }
}

proof fn lemma_position_is(list: Seq<Ea>, name: Seq<u8>, i: int, k: int)
    requires
        0 <= i <= k < list.len(),
        folded(list[k].name@) == folded(name),
        forall|j: int| i <= j < k ==> folded((#[trigger] list[j]).name@) != folded(name),
    ensures
        position_from(list, name, i) == Some(k),
    decreases k - i,
{
    if i < k {
        assert(folded(list[i].name@) != folded(name));
        lemma_position_is(list, name, i + 1, k);
    }
}

proof fn lemma_position_is_none(list: Seq<Ea>, name: Seq<u8>, i: int)
    requires
        0 <= i,
        forall|j: int|
            i <= j < list.len() ==> folded((#[trigger] list[j]).name@) != folded(name),
    ensures
        position_from(list, name, i) is None,
    decreases list.len() - i,
{
    if i < list.len() {
        assert(folded(list[i].name@) != folded(name));
        lemma_position_is_none(list, name, i + 1);
    }
}

/// What the list has under a name.
pub open spec fn looked_up(list: Seq<Ea>, name: Seq<u8>) -> Option<Ea> {
    match position_from(list, name, 0) {
        Some(k) => Some(list[k]),
        None => None,
    }
}

/// What was put into a list is found there under its name, in whatever case, and
/// nothing else changed.
pub proof fn lemma_upsert_then_look_up(list: Seq<Ea>, entry: Ea, name: Seq<u8>)
    ensures
        looked_up(upserted(list, entry), name) == if folded(name) == folded(entry.name@) {
            Some(entry)
        } else {
            looked_up(list, name)
        },
{
    let new = upserted(list, entry);
    lemma_position(list, entry.name@, 0);
    lemma_position(list, name, 0);
    let at = match position_from(list, entry.name@, 0) {
        Some(k) => k,
        None => list.len() as int,
    };
    assert(new[at] == entry);
    assert(forall|j: int| 0 <= j < list.len() && j != at ==> #[trigger] new[j] == list[j]);
    if folded(name) == folded(entry.name@) {
        lemma_position_is(new, name, 0, at);
    } else {
        match position_from(list, name, 0) {
            Some(k) => {
                assert(k != at);
                assert forall|j: int| 0 <= j < k implies folded((#[trigger] new[j]).name@)
                    != folded(name) by {
                    if j != at {
                        assert(new[j] == list[j]);
                    }
                }
                lemma_position_is(new, name, 0, k);
            },
            None => {
                assert forall|j: int| 0 <= j < new.len() implies folded((#[trigger] new[j]).name@)
                    != folded(name) by {
                    if j != at {
                        assert(new[j] == list[j]);
                    }
                }
                lemma_position_is_none(new, name, 0);
            },
        }
    }
}

proof fn lemma_without(list: Seq<Ea>, name: Seq<u8>)
    ensures
        forall|j: int|
            0 <= j < without(list, name).len() ==> folded(
                (#[trigger] without(list, name)[j]).name@,
            ) != folded(name),
    decreases list.len(),
{
    if list.len() > 0 {
        let rest = without(list.drop_last(), name);
        lemma_without(list.drop_last(), name);
        assert forall|j: int| 0 <= j < without(list, name).len() implies folded(
            (#[trigger] without(list, name)[j]).name@,
        ) != folded(name) by {
            if j < rest.len() {
                assert(without(list, name)[j] == rest[j]);
            }
        }
    }
}

proof fn lemma_look_up_in_longer(list: Seq<Ea>, last: Ea, name: Seq<u8>)
    ensures
        looked_up(list.push(last), name) == match looked_up(list, name) {
            Some(e) => Some(e),
            None => if folded(last.name@) == folded(name) {
                Some(last)
            } else {
                None
            },
        },
{
    let more = list.push(last);
    lemma_position(list, name, 0);
    assert(forall|j: int| 0 <= j < list.len() ==> #[trigger] more[j] == list[j]);
    match position_from(list, name, 0) {
        Some(k) => {
            lemma_position_is(more, name, 0, k);
        },
        None => {
            if folded(last.name@) == folded(name) {
                lemma_position_is(more, name, 0, list.len() as int);
            } else {
                lemma_position_is_none(more, name, 0);
            }
        },
    }
}

/// Removing a name changes nothing of the others.
pub proof fn lemma_remove_keeps_the_others(list: Seq<Ea>, name: Seq<u8>, other: Seq<u8>)
    requires
        folded(other) != folded(name),
    ensures
        looked_up(without(list, name), other) == looked_up(list, other),
    decreases list.len(),
{
    if list.len() > 0 {
        let front = list.drop_last();
        lemma_remove_keeps_the_others(front, name, other);
        assert(front.push(list.last()) =~= list);
        lemma_look_up_in_longer(front, list.last(), other);
        if folded(list.last().name@) != folded(name) {
            lemma_look_up_in_longer(without(front, name), list.last(), other);
        }
    } else {
        assert(without(list, name) =~= list);
    }
}

/// What was removed from a list is not found there.
pub proof fn lemma_remove_then_look_up(list: Seq<Ea>, name: Seq<u8>)
    ensures
        looked_up(without(list, name), name) is None,
{
    lemma_without(list, name);
    lemma_position_is_none(without(list, name), name, 0);
}

} // verus!
