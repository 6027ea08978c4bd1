//! Where the fields of what is read and written stand.

use vstd::prelude::*;

use crate::attr_io;
use crate::bytes;
use crate::index_edit;
use crate::reparse;
use crate::utf16;

verus! {

/// The bytes of `field` stand in `x` from `at` on.
pub open spec fn stands(x: Seq<u8>, at: int, field: Seq<u8>) -> bool {
    &&& 0 <= at
    &&& at + field.len() <= x.len()
    &&& forall|k: int| at <= k < at + field.len() ==> #[trigger] x[k] == field[k - at]
}

pub(crate) proof fn lemma_field16(x: Seq<u8>, at: int, v: int)
    requires
        stands(x, at, bytes::bytes16(v)),
        0 <= v < 0x1_0000,
    ensures
        bytes::le16(x, at) == v,
{
    assert(bytes::patch(x, at, bytes::bytes16(v)) =~= x);
    bytes::lemma_le16_of_patch(x, at, v);
}

pub(crate) proof fn lemma_field32(x: Seq<u8>, at: int, v: int)
    requires
        stands(x, at, bytes::bytes32(v)),
        0 <= v < 0x1_0000_0000,
    ensures
        bytes::le32(x, at) == v,
{
    assert(bytes::patch(x, at, bytes::bytes32(v)) =~= x);
    bytes::lemma_le32_of_patch(x, at, v);
}

pub(crate) proof fn lemma_field64(x: Seq<u8>, at: int, v: int)
    requires
        stands(x, at, bytes::bytes64(v)),
        0 <= v < 0x1_0000_0000_0000_0000,
    ensures
        bytes::le64(x, at) == v,
{
    assert(bytes::patch(x, at, bytes::bytes64(v)) =~= x);
    bytes::lemma_le64_of_patch(x, at, v);
}

/// The fields of an index entry: the file that it is for, its own length and that
/// of its key, no flags, and in the key the directory, the time four times, no
/// sizes, the attributes, and the name.
pub open spec fn has_fields(
    x: Seq<u8>,
    reference: u64,
    parent: u64,
    name: Seq<u16>,
    time: u64,
    is_dir: bool,
    namespace: u8,
) -> bool {
    let n = name.len() as int;
    &&& x.len() % 8 == 0
    &&& 0x52 + 2 * n <= x.len() < 0x52 + 2 * n + 8
    &&& bytes::le64(x, 0) == reference
    &&& bytes::le16(x, 8) == x.len()
    &&& bytes::le16(x, 0xA) == 0x42 + 2 * n
    &&& bytes::le16(x, 0xC) == 0
    &&& bytes::le16(x, 0xE) == 0
    &&& bytes::le64(x, 0x10) == parent
    &&& bytes::le64(x, 0x18) == time
    &&& bytes::le64(x, 0x20) == time
    &&& bytes::le64(x, 0x28) == time
    &&& bytes::le64(x, 0x30) == time
    &&& bytes::le64(x, 0x38) == 0
    &&& bytes::le64(x, 0x40) == 0
    &&& bytes::le32(x, 0x48) == if is_dir {
        0x1000_0020int
    } else {
        0x20
    }
    &&& bytes::le32(x, 0x4C) == 0
    &&& x[0x50] == n
    &&& x[0x51] == namespace
    &&& forall|i: int| 0 <= i < n ==> bytes::le16(x, 0x52 + 2 * i) == #[trigger] name[i]
    &&& forall|k: int| 0x52 + 2 * n <= k < x.len() ==> #[trigger] x[k] == 0
}

/// A new index entry reads back field by field.
pub proof fn lemma_built_entry_fields(
    reference: u64,
    parent: u64,
    name: Seq<u16>,
    time: u64,
    is_dir: bool,
    namespace: u8,
)
    requires
        1 <= name.len() <= 255,
    ensures
        has_fields(
            index_edit::built_entry(reference, parent, name, time, is_dir, namespace),
            reference,
            parent,
            name,
            time,
            is_dir,
            namespace,
        ),
{
    let n = name.len() as int;
    let x = index_edit::built_entry(reference, parent, name, time, is_dir, namespace);
    let head = built_head(reference, n);
    let key = index_edit::built_key(parent, time, is_dir, n, namespace);
    lemma_built_head(reference, n);
    lemma_built_key(parent, time, is_dir, n, namespace);
    lemma_built_parts(reference, parent, name, time, is_dir, namespace);
    lemma_fields_of_parts(x, head, key, reference, parent, name, time, is_dir, namespace);
}

proof fn lemma_built_parts(
    reference: u64,
    parent: u64,
    name: Seq<u16>,
    time: u64,
    is_dir: bool,
    namespace: u8,
)
    requires
        1 <= name.len() <= 255,
        built_head(reference, name.len() as int).len() == 0x10,
        index_edit::built_key(parent, time, is_dir, name.len() as int, namespace).len() == 0x42,
    ensures
        ({
            let n = name.len() as int;
            let x = index_edit::built_entry(reference, parent, name, time, is_dir, namespace);
            &&& x.len() == index_edit::built_length(n)
            &&& stands(x, 0, built_head(reference, n))
            &&& stands(x, 0x10, index_edit::built_key(parent, time, is_dir, n, namespace))
            &&& stands(x, 0x52, index_edit::unit_bytes(name))
            &&& forall|k: int| 0x52 + 2 * n <= k < x.len() ==> #[trigger] x[k] == 0
        }),
{
    let n = name.len() as int;
    let x = index_edit::built_entry(reference, parent, name, time, is_dir, namespace);
    let head = built_head(reference, n);
    let key = index_edit::built_key(parent, time, is_dir, n, namespace);
    let units = index_edit::unit_bytes(name);
    let pad = bytes::run_of(0, index_edit::built_length(n) - (0x52 + 2 * n));
    assert(x == head + key + units + pad);
    assert(units.len() == 2 * n);
    assert(x.len() == index_edit::built_length(n));
}

proof fn lemma_fields_of_parts(
    x: Seq<u8>,
    head: Seq<u8>,
    key: Seq<u8>,
    reference: u64,
    parent: u64,
    name: Seq<u16>,
    time: u64,
    is_dir: bool,
    namespace: u8,
)
    requires
        1 <= name.len() <= 255,
        x.len() == index_edit::built_length(name.len() as int),
        is_built_head(head, reference, name.len() as int),
        is_built_key(key, parent, time, is_dir, name.len() as int, namespace),
        stands(x, 0, head),
        stands(x, 0x10, key),
        stands(x, 0x52, index_edit::unit_bytes(name)),
        forall|k: int| 0x52 + 2 * name.len() <= k < x.len() ==> #[trigger] x[k] == 0,
    ensures
        has_fields(x, reference, parent, name, time, is_dir, namespace),
{
    lemma_entry_head_moved(x, head);
    lemma_entry_key_moved(x, key);
    lemma_units_moved(x, 0x52, name);
}

spec fn is_built_head(head: Seq<u8>, reference: u64, n: int) -> bool {
    &&& head.len() == 0x10
    &&& bytes::le64(head, 0) == reference
    &&& bytes::le16(head, 8) == index_edit::built_length(n)
    &&& bytes::le16(head, 0xA) == 0x42 + 2 * n
    &&& bytes::le16(head, 0xC) == 0
    &&& bytes::le16(head, 0xE) == 0
}

spec fn is_built_key(
    key: Seq<u8>,
    parent: u64,
    time: u64,
    is_dir: bool,
    n: int,
    namespace: u8,
) -> bool {
    &&& key.len() == 0x42
    &&& bytes::le64(key, 0) == parent
    &&& bytes::le64(key, 8) == time
    &&& bytes::le64(key, 0x10) == time
    &&& bytes::le64(key, 0x18) == time
    &&& bytes::le64(key, 0x20) == time
    &&& bytes::le64(key, 0x28) == 0
    &&& bytes::le64(key, 0x30) == 0
    &&& bytes::le32(key, 0x38) == if is_dir {
        0x1000_0020int
    } else {
        0x20
    }
    &&& bytes::le32(key, 0x3C) == 0
    &&& key[0x40] == n
    &&& key[0x41] == namespace
}

/// The header of a new entry.
spec fn built_head(reference: u64, n: int) -> Seq<u8> {
    bytes::bytes64(reference as int) + bytes::bytes16(index_edit::built_length(n)) + bytes::bytes16(
        0x42 + 2 * n,
    ) + bytes::bytes16(0) + bytes::bytes16(0)
}

proof fn lemma_units_moved(x: Seq<u8>, at: int, name: Seq<u16>)
    requires
        stands(x, at, index_edit::unit_bytes(name)),
    ensures
        forall|i: int|
            0 <= i < name.len() ==> bytes::le16(x, at + 2 * i) == #[trigger] name[i],
{
    let units = index_edit::unit_bytes(name);
    assert forall|i: int| 0 <= i < name.len() implies bytes::le16(x, at + 2 * i)
        == #[trigger] name[i] by {
        assert(x[at + 2 * i] == units[2 * i]);
        assert(x[at + (2 * i + 1)] == units[2 * i + 1]);
    }
}

proof fn lemma_entry_head_moved(x: Seq<u8>, head: Seq<u8>)
    requires
        head.len() == 0x10,
        stands(x, 0, head),
    ensures
        bytes::le64(x, 0) == bytes::le64(head, 0),
        bytes::le16(x, 8) == bytes::le16(head, 8),
        bytes::le16(x, 0xA) == bytes::le16(head, 0xA),
        bytes::le16(x, 0xC) == bytes::le16(head, 0xC),
        bytes::le16(x, 0xE) == bytes::le16(head, 0xE),
{
}

proof fn lemma_entry_key_moved(x: Seq<u8>, key: Seq<u8>)
    requires
        key.len() == 0x42,
        stands(x, 0x10, key),
    ensures
        bytes::le64(x, 0x10) == bytes::le64(key, 0),
        bytes::le64(x, 0x18) == bytes::le64(key, 8),
        bytes::le64(x, 0x20) == bytes::le64(key, 0x10),
        bytes::le64(x, 0x28) == bytes::le64(key, 0x18),
        bytes::le64(x, 0x30) == bytes::le64(key, 0x20),
        bytes::le64(x, 0x38) == bytes::le64(key, 0x28),
        bytes::le64(x, 0x40) == bytes::le64(key, 0x30),
        bytes::le32(x, 0x48) == bytes::le32(key, 0x38),
        bytes::le32(x, 0x4C) == bytes::le32(key, 0x3C),
        x[0x50] == key[0x40],
        x[0x51] == key[0x41],
{
}

proof fn lemma_part_of(before: Seq<u8>, part: Seq<u8>, behind: Seq<u8>, x: Seq<u8>)
    requires
        x == before + part + behind,
    ensures
        stands(x, before.len() as int, part),
{
}

proof fn lemma_built_head(reference: u64, n: int)
    requires
        1 <= n <= 255,
    ensures
        is_built_head(built_head(reference, n), reference, n),
{
    let head = built_head(reference, n);
    let length = index_edit::built_length(n);
    let r = bytes::bytes64(reference as int);
    let l = bytes::bytes16(length);
    let kl = bytes::bytes16(0x42 + 2 * n);
    let z = bytes::bytes16(0);
    assert(r.len() == 8);
    assert(stands(head, 0, r));
    lemma_field64(head, 0, reference as int);
    assert(stands(head, 8, l));
    lemma_field16(head, 8, length);
    assert(stands(head, 0xA, kl));
    lemma_field16(head, 0xA, 0x42 + 2 * n);
    assert(stands(head, 0xC, z));
    lemma_field16(head, 0xC, 0);
    assert(stands(head, 0xE, z));
    lemma_field16(head, 0xE, 0);
}

proof fn lemma_built_key(parent: u64, time: u64, is_dir: bool, n: int, namespace: u8)
    requires
        1 <= n <= 255,
    ensures
        is_built_key(
            index_edit::built_key(parent, time, is_dir, n, namespace),
            parent,
            time,
            is_dir,
            n,
            namespace,
        ),
{
    let key = index_edit::built_key(parent, time, is_dir, n, namespace);
    let p = bytes::bytes64(parent as int);
    let t = bytes::bytes64(time as int);
    let none = bytes::bytes64(0);
    let attributes = if is_dir {
        0x1000_0020int
    } else {
        0x20
    };
    let a = bytes::bytes32(attributes);
    let z = bytes::bytes32(0);
    let name = seq![n as u8, namespace];
    let times = t + t + t + t;
    let sizes = none + none;
    let rest = a + z + name;
    assert(p.len() == 8 && t.len() == 8 && none.len() == 8 && a.len() == 4 && z.len() == 4);
    assert(key =~= p + times + sizes + rest);
    assert(key =~= Seq::empty() + p + (times + sizes + rest));
    lemma_part_of(Seq::empty(), p, times + sizes + rest, key);
    lemma_field64(key, 0, parent as int);
    assert(key =~= p + times + (sizes + rest));
    lemma_part_of(p, times, sizes + rest, key);
    assert(stands(key, 8, t));
    lemma_field64(key, 8, time as int);
    assert(stands(key, 0x10, t));
    lemma_field64(key, 0x10, time as int);
    assert(stands(key, 0x18, t));
    lemma_field64(key, 0x18, time as int);
    assert(stands(key, 0x20, t));
    lemma_field64(key, 0x20, time as int);
    lemma_part_of(p + times, sizes, rest, key);
    assert(stands(key, 0x28, none));
    lemma_field64(key, 0x28, 0);
    assert(stands(key, 0x30, none));
    lemma_field64(key, 0x30, 0);
    assert(key =~= p + times + sizes + rest + Seq::empty());
    lemma_part_of(p + times + sizes, rest, Seq::empty(), key);
    assert(stands(key, 0x38, a));
    lemma_field32(key, 0x38, attributes);
    assert(stands(key, 0x3C, z));
    lemma_field32(key, 0x3C, 0);
}

/// Units are read two bytes at a time, the one that counts less first, and
/// written so too.
pub proof fn lemma_units_in_bytes(b: Seq<u8>, at: int, n: int, u: Seq<u16>, i: int)
    requires
        0 <= at,
        0 <= n,
        at + 2 * n <= b.len(),
    ensures
        attr_io::units_at(b, at, n).len() == n,
        0 <= i < n ==> attr_io::units_at(b, at, n)[i] == b[at + 2 * i] + 256 * b[at + 2 * i + 1],
        index_edit::unit_bytes(u).len() == 2 * u.len(),
        0 <= i < u.len() ==> index_edit::unit_bytes(u)[2 * i] == u[i] % 256,
        0 <= i < u.len() ==> index_edit::unit_bytes(u)[2 * i + 1] == u[i] / 256,
{
}

/// A character in the first plane is one unit, and any other is two: 10 bits of
/// what it is above 0x10000 in each, the upper ones first. A string is the units
/// of its characters, in their order.
pub proof fn lemma_units_of_a_string(c: char, rest: Seq<char>)
    ensures
        utf16::encoded(Seq::empty()) == Seq::<u16>::empty(),
        utf16::encoded(seq![c] + rest) == (if (c as int) < 0x1_0000 {
            seq![c as u16]
        } else {
            seq![
                (0xD800 + (c as int - 0x1_0000) / 1024) as u16,
                (0xDC00 + (c as int - 0x1_0000) % 1024) as u16,
            ]
        }) + utf16::encoded(rest),
{
    assert((seq![c] + rest).skip(1) =~= rest);
}

/// An unpaired surrogate stands for no character: what is read leniently has the
/// replacement character there, and what is read strictly is refused.
pub proof fn lemma_unpaired_surrogate(s: Seq<char>, u: u16, rest: Seq<u16>)
    requires
        0xD800 <= u < 0xE000,
        u < 0xDC00 ==> rest.len() == 0 || !(0xDC00 <= rest[0] < 0xE000),
    ensures
        utf16::decoded_lossy(utf16::encoded(s) + (seq![u] + rest)) == s + (seq!['\u{FFFD}']
            + utf16::decoded_lossy(rest)),
        utf16::decoded(utf16::encoded(s) + (seq![u] + rest)) is None,
    decreases s.len(),
{
    let bad = seq![u] + rest;
    let all = utf16::encoded(s) + bad;
    if s.len() == 0 {
        assert(all =~= bad);
        assert(bad.skip(1) =~= rest);
        assert(bad.len() > 1 ==> bad[1] == rest[0]);
        assert(s + (seq!['\u{FFFD}'] + utf16::decoded_lossy(rest)) =~= seq!['\u{FFFD}']
            + utf16::decoded_lossy(rest));
    } else {
        let first = utf16::units_of(s[0]);
        let more = utf16::encoded(s.skip(1)) + bad;
        let v = s[0] as int;
        utf16::lemma_char_range(s[0]);
        assert(all =~= first + more);
        assert(all.skip(first.len() as int) =~= more);
        lemma_unpaired_surrogate(s.skip(1), u, rest);
        let end = seq!['\u{FFFD}'] + utf16::decoded_lossy(rest);
        assert(all[0] == first[0]);
        if v >= 0x1_0000 {
            assert(all[1] == first[1]);
            assert(utf16::pair_char(first[0], first[1]) == s[0]);
        }
        assert(seq![s[0]] + (s.skip(1) + end) =~= s + end);
    }
}

/// The value of a symbolic link: the tag, the length of what follows, nothing,
/// where the two names begin behind the flags and how long they are, the flags,
/// and the names.
pub open spec fn symlink_value(
    other: int,
    other_length: int,
    begin: int,
    length: int,
    flags: int,
    names: Seq<u8>,
) -> Seq<u8> {
    bytes::bytes32(0xA000_000C) + bytes::bytes16(12 + names.len() as int) + bytes::bytes16(0)
        + bytes::bytes16(other) + bytes::bytes16(other_length) + bytes::bytes16(begin)
        + bytes::bytes16(length) + bytes::bytes32(flags) + names
}

/// The value of a mount point, which has no flags.
pub open spec fn mount_point_value(
    other: int,
    other_length: int,
    begin: int,
    length: int,
    names: Seq<u8>,
) -> Seq<u8> {
    bytes::bytes32(0xA000_0003) + bytes::bytes16(8 + names.len() as int) + bytes::bytes16(0)
        + bytes::bytes16(other) + bytes::bytes16(other_length) + bytes::bytes16(begin)
        + bytes::bytes16(length) + names
}

/// The string stands in the bytes from `begin` on, in units of two bytes, and is
/// `length` bytes long.
pub open spec fn spelled(names: Seq<u8>, begin: int, length: int, t: Seq<char>) -> bool {
    let u = utf16::encoded(t);
    &&& 0 <= begin
    &&& length == 2 * u.len()
    &&& begin + length <= names.len()
    &&& forall|i: int|
        0 <= i < u.len() ==> #[trigger] u[i] == names[begin + 2 * i] + 256 * names[begin + 2 * i
            + 1]
}

/// The string begins with a backslash, two question marks and a backslash.
pub open spec fn has_prefix(t: Seq<char>) -> bool {
    t.len() >= 4 && t[0] == '\\' && t[1] == '?' && t[2] == '?' && t[3] == '\\'
}

proof fn lemma_prefix(t: Seq<char>)
    ensures
        reparse::without_nt_prefix(t) == if has_prefix(t) {
            t.skip(4)
        } else {
            t
        },
{
    reveal_strlit("\\??\\");
    let p = "\\??\\"@;
    assert(p.len() == 4);
    if has_prefix(t) {
        assert(t.subrange(0, 4) =~= p);
    } else if t.len() >= 4 && t.subrange(0, 4) == p {
        assert(t.subrange(0, 4)[0] == t[0]);
        assert(t.subrange(0, 4)[1] == t[1]);
        assert(t.subrange(0, 4)[2] == t[2]);
        assert(t.subrange(0, 4)[3] == t[3]);
    }
}

proof fn lemma_spelled(data: Seq<u8>, header: int, names: Seq<u8>, begin: int, length: int, t: Seq<char>)
    requires
        8 <= header,
        data.len() == header + names.len(),
        forall|k: int| 0 <= k < names.len() ==> data[header + k] == #[trigger] names[k],
        bytes::le16(data, 4) == begin,
        bytes::le16(data, 6) == length,
        spelled(names, begin, length, t),
        t.len() > 0,
    ensures
        reparse::print_name(data, header) == Some(t),
{
    let u = utf16::encoded(t);
    let b = data.subrange(header + begin, header + begin + length);
    assert(utf16::units_of(t[0]).len() >= 1);
    assert(b.len() == 2 * u.len());
    assert(attr_io::units_at(b, 0, b.len() as int / 2) =~= u) by {
        assert forall|i: int| 0 <= i < u.len() implies #[trigger] attr_io::units_at(
            b,
            0,
            b.len() as int / 2,
        )[i] == u[i] by {
            assert(b[2 * i] == names[begin + 2 * i]);
            assert(b[2 * i + 1] == names[begin + 2 * i + 1]);
        }
    }
    utf16::lemma_decode_of_encode(t);
}

/// A symbolic link points at its second name, without the prefix where it has
/// one, whatever its first name is, and its flags.
pub proof fn lemma_symlink_points_at_its_print_name(
    other: int,
    other_length: int,
    begin: int,
    length: int,
    flags: int,
    names: Seq<u8>,
    t: Seq<char>,
    tail: Seq<u8>,
)
    requires
        t.len() > 0,
        spelled(names, begin, length, t),
        0 <= begin < 0x1_0000,
        length < 0x1_0000,
        12 + names.len() < 0x1_0000,
    ensures
        reparse::link_target(
            symlink_value(other, other_length, begin, length, flags, names) + tail,
        ) == Ok::<Seq<char>, Seq<char>>(
            if has_prefix(t) {
                t.skip(4)
            } else {
                t
            },
        ),
{
    let v = symlink_value(other, other_length, begin, length, flags, names) + tail;
    let tag = bytes::bytes32(0xA000_000C);
    let dl = bytes::bytes16(12 + names.len() as int);
    let z = bytes::bytes16(0);
    let f = bytes::bytes32(flags);
    assert(tag.len() == 4 && f.len() == 4);
    let head = tag + dl + z + bytes::bytes16(other) + bytes::bytes16(other_length)
        + bytes::bytes16(begin) + bytes::bytes16(length) + f;
    assert(head.len() == 20);
    assert(v == head + names + tail);
    assert forall|k: int| 0 <= k < 20 implies #[trigger] v[k] == head[k] by {}
    assert(stands(v, 0, tag));
    lemma_field32(v, 0, 0xA000_000C);
    assert(stands(v, 4, dl));
    lemma_field16(v, 4, 12 + names.len() as int);
    let data = v.subrange(8, 8 + 12 + names.len() as int);
    assert forall|k: int| 0 <= k < 12 implies #[trigger] data[k] == head[8 + k] by {
        assert(data[k] == v[8 + k]);
    }
    assert(stands(data, 4, bytes::bytes16(begin)));
    lemma_field16(data, 4, begin);
    assert(stands(data, 6, bytes::bytes16(length)));
    lemma_field16(data, 6, length);
    assert forall|k: int| 0 <= k < names.len() implies data[12 + k] == #[trigger] names[k] by {
        assert(v[20 + k] == names[k]);
    }
    lemma_spelled(data, 12, names, begin, length, t);
    lemma_prefix(t);
}

/// So it is with a mount point.
pub proof fn lemma_mount_point_points_at_its_print_name(
    other: int,
    other_length: int,
    begin: int,
    length: int,
    names: Seq<u8>,
    t: Seq<char>,
    tail: Seq<u8>,
)
    requires
        t.len() > 0,
        spelled(names, begin, length, t),
        0 <= begin < 0x1_0000,
        length < 0x1_0000,
        8 + names.len() < 0x1_0000,
    ensures
        reparse::link_target(mount_point_value(other, other_length, begin, length, names) + tail)
            == Ok::<Seq<char>, Seq<char>>(
            if has_prefix(t) {
                t.skip(4)
            } else {
                t
            },
        ),
{
    let v = mount_point_value(other, other_length, begin, length, names) + tail;
    let tag = bytes::bytes32(0xA000_0003);
    let dl = bytes::bytes16(8 + names.len() as int);
    let z = bytes::bytes16(0);
    assert(tag.len() == 4);
    let head = tag + dl + z + bytes::bytes16(other) + bytes::bytes16(other_length)
        + bytes::bytes16(begin) + bytes::bytes16(length);
    assert(head.len() == 16);
    assert(v == head + names + tail);
    assert forall|k: int| 0 <= k < 16 implies #[trigger] v[k] == head[k] by {}
    assert(stands(v, 0, tag));
    lemma_field32(v, 0, 0xA000_0003);
    assert(stands(v, 4, dl));
    lemma_field16(v, 4, 8 + names.len() as int);
    let data = v.subrange(8, 8 + 8 + names.len() as int);
    assert forall|k: int| 0 <= k < 8 implies #[trigger] data[k] == head[8 + k] by {
        assert(data[k] == v[8 + k]);
    }
    assert(stands(data, 4, bytes::bytes16(begin)));
    lemma_field16(data, 4, begin);
    assert(stands(data, 6, bytes::bytes16(length)));
    lemma_field16(data, 6, length);
    assert forall|k: int| 0 <= k < names.len() implies data[8 + k] == #[trigger] names[k] by {
        assert(v[16 + k] == names[k]);
    }
    lemma_spelled(data, 8, names, begin, length, t);
    lemma_prefix(t);
}

/// No target is read from a value that ends before its data does, or is of
/// another kind, or whose second name is empty or not all there.
pub proof fn lemma_what_is_no_link(value: Seq<u8>)
    requires
        ({
            let tag = bytes::le32(value, 0);
            let length = bytes::le16(value, 4);
            let names = if tag == 0xA000_000C {
                12int
            } else {
                8
            };
            ||| value.len() < 8
            ||| 8 + length > value.len()
            ||| tag != 0xA000_000C && tag != 0xA000_0003
            ||| length < names
            ||| names + bytes::le16(value, 12) + bytes::le16(value, 14) > length
            ||| bytes::le16(value, 14) == 0
            ||| bytes::le16(value, 14) % 2 == 1
        }),
    ensures
        reparse::link_target(value) is Err,
{
    let length = bytes::le16(value, 4);
    if value.len() >= 8 && 8 + length <= value.len() && length >= 8 {
        let data = value.subrange(8, 8 + length);
        assert(data[4] == value[12] && data[5] == value[13]);
        assert(data[6] == value[14] && data[7] == value[15]);
    }
}

} // verus!
