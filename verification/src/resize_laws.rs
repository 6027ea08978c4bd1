//! What a change of an attribute's size undoes.

use vstd::prelude::*;

use crate::attr_io;
use crate::attr_off;
use crate::attr_resize;
use crate::attr_resize::{REC_OFF_BYTES_ALLOCATED, REC_OFF_BYTES_USED};
use crate::bytes;

verus! {

/// The length of the value of the attribute at `at`.
pub open spec fn value_length_at(r: Seq<u8>, at: int) -> int {
    bytes::le32(r, at + attr_off::RESIDENT_VALUE_LENGTH)
}

/// `k` is in one of the fields that a resize of the attribute at `at` writes.
spec fn in_fields(at: int, k: int) -> bool {
    ||| REC_OFF_BYTES_USED <= k < REC_OFF_BYTES_USED + 4
    ||| at + attr_off::LENGTH <= k < at + attr_off::LENGTH + 4
    ||| at + attr_off::RESIDENT_VALUE_LENGTH <= k < at + attr_off::RESIDENT_VALUE_LENGTH + 4
}

/// `s` is `r` with the attribute at `at` made longer by `d`, but for the fields
/// that say so.
spec fn grown(r: Seq<u8>, s: Seq<u8>, at: int, d: int) -> bool {
    let end = at + attr_resize::length_at(r, at);
    let used = attr_resize::used(r);
    &&& s.len() == r.len()
    &&& used + d <= r.len()
    &&& forall|k: int| 0 <= k < end && !in_fields(at, k) ==> #[trigger] s[k] == r[k]
    &&& forall|k: int| end + d <= k < used + d ==> #[trigger] s[k] == r[k - d]
    &&& forall|k: int| used + d <= k < r.len() ==> #[trigger] s[k] == r[k]
}

/// `r` with the attribute at `at` made `length` bytes long, and with `n` for the
/// length of its value.
spec fn refitted(r: Seq<u8>, at: int, length: int, n: int) -> Seq<u8> {
    bytes::patch(
        bytes::patch(
            attr_resize::with_length(r, at, length),
            at + attr_off::LENGTH,
            bytes::bytes32(length),
        ),
        at + attr_off::RESIDENT_VALUE_LENGTH,
        bytes::bytes32(n),
    )
}

proof fn lemma_grows(r: Seq<u8>, at: int, length: int, n: int)
    requires
        REC_OFF_BYTES_ALLOCATED + 4 <= at,
        0 <= n <= u32::MAX,
        0x18 <= attr_resize::length_at(r, at) < length <= u32::MAX,
        at + attr_resize::length_at(r, at) <= attr_resize::used(r),
        attr_resize::used(r) + length - attr_resize::length_at(r, at) <= r.len(),
        attr_resize::used(r) + length - attr_resize::length_at(r, at) <= u32::MAX,
    ensures
        ({
            let s = refitted(r, at, length, n);
            let d = length - attr_resize::length_at(r, at);
            &&& grown(r, s, at, d)
            &&& attr_resize::used(s) == attr_resize::used(r) + d
            &&& attr_resize::length_at(s, at) == length
        }),
{
    let end = at + attr_resize::length_at(r, at);
    let used = attr_resize::used(r);
    let d = length - attr_resize::length_at(r, at);
    let a = attr_resize::shifted(r, end, used, end + d);
    let s = refitted(r, at, length, n);
    assert(at + length == end + d);
    attr_resize::lemma_patched_thrice(a, at, used + d, length, n);
    assert forall|k: int| end + d <= k < used + d implies #[trigger] s[k] == r[k - d] by {
        assert(s[k] == a[k]);
    }
    assert forall|k: int| used + d <= k < r.len() implies #[trigger] s[k] == r[k] by {
        assert(s[k] == a[k]);
    }
    assert forall|k: int| 0 <= k < end && !in_fields(at, k) implies #[trigger] s[k] == r[k] by {
        assert(s[k] == a[k]);
    }
}

/// What a value that was made longer has behind its header: the bytes of its
/// attribute as they were, and zero behind them.
pub(crate) proof fn lemma_grown_body(r: Seq<u8>, at: int, n: int)
    requires
        REC_OFF_BYTES_ALLOCATED + 4 <= at,
        0 <= n <= u32::MAX,
        !attr_io::non_resident_at(r, at),
        0x18 <= attr_resize::length_at(r, at) <= attr_resize::length_for_value(r, at, n),
        at + attr_resize::length_at(r, at) <= attr_resize::used(r) <= r.len(),
        attr_resize::resize_defined(r, at, n),
        attr_resize::resized(r, at, n) is Ok,
    ensures
        ({
            let s = attr_resize::resized(r, at, n)->Ok_0;
            let end = at + attr_resize::length_at(r, at);
            &&& forall|k: int| at + 0x18 <= k < end ==> #[trigger] s[k] == r[k]
            &&& forall|k: int|
                end <= k < at + attr_resize::length_for_value(r, at, n) ==> #[trigger] s[k] == 0
        }),
{
    let length = attr_resize::length_at(r, at);
    let new_length = attr_resize::length_for_value(r, at, n);
    let end = at + length;
    if length < new_length {
        let used = attr_resize::used(r);
        let a = attr_resize::shifted(r, end, used, at + new_length);
        let s = refitted(r, at, new_length, n);
        assert(attr_resize::resized(r, at, n) == Ok::<Seq<u8>, Seq<char>>(s));
        assert(used + new_length - length <= attr_resize::allocated(r) <= u32::MAX);
        attr_resize::lemma_patched_thrice(a, at, used + new_length - length, new_length, n);
        assert forall|k: int| at + 0x18 <= k < end implies #[trigger] s[k] == r[k] by {
            assert(s[k] == a[k]);
        }
        assert forall|k: int| end <= k < at + new_length implies #[trigger] s[k] == 0 by {
            assert(s[k] == a[k]);
        }
    }
}

/// A record that grew and is made as short again is what it was.
proof fn lemma_shrinks(r: Seq<u8>, s: Seq<u8>, at: int, d: int)
    requires
        REC_OFF_BYTES_ALLOCATED + 4 <= at,
        0x18 <= attr_resize::length_at(r, at),
        at + attr_resize::length_at(r, at) <= attr_resize::used(r) <= r.len(),
        d > 0,
        grown(r, s, at, d),
        attr_resize::used(s) == attr_resize::used(r) + d,
        attr_resize::length_at(s, at) == attr_resize::length_at(r, at) + d,
        forall|k: int| attr_resize::used(r) <= k < r.len() ==> #[trigger] r[k] == 0,
    ensures
        refitted(s, at, attr_resize::length_at(r, at), value_length_at(r, at)) == r,
{
    let length = attr_resize::length_at(r, at);
    let used = attr_resize::used(r);
    let end = at + length;
    let b = attr_resize::shifted(s, end + d, used + d, end);
    let x = bytes::bytes32(used);
    let y = bytes::bytes32(length);
    let z = bytes::bytes32(value_length_at(r, at));
    let w = refitted(s, at, length, value_length_at(r, at));
    assert(attr_resize::with_length(s, at, length) == bytes::patch(
        b,
        REC_OFF_BYTES_USED as int,
        x,
    ));
    assert(x.len() == 4 && y.len() == 4 && z.len() == 4);
    bytes::lemma_bytes_of_le32(r, REC_OFF_BYTES_USED as int);
    bytes::lemma_bytes_of_le32(r, at + attr_off::LENGTH);
    bytes::lemma_bytes_of_le32(r, at + attr_off::RESIDENT_VALUE_LENGTH);
    assert forall|k: int| 0 <= k < r.len() implies #[trigger] w[k] == r[k] by {
        if in_fields(at, k) {
        } else if k < end {
            assert(b[k] == s[k]);
        } else if k < used {
            assert(b[k] == s[k + d]);
        } else if k < used + d {
            assert(b[k] == 0);
        } else {
            assert(b[k] == s[k]);
        }
    }
    assert(w =~= r);
}

proof fn lemma_same_kind(r: Seq<u8>, s: Seq<u8>, at: int)
    requires
        forall|k: int|
            at <= k < at + 0x18 && !in_fields(at, k) ==> #[trigger] s[k] == r[k],
        REC_OFF_BYTES_ALLOCATED + 4 <= at,
    ensures
        attr_io::non_resident_at(s, at) == attr_io::non_resident_at(r, at),
        bytes::le16(s, at + attr_off::RESIDENT_VALUE_OFFSET) == bytes::le16(
            r,
            at + attr_off::RESIDENT_VALUE_OFFSET,
        ),
{
    assert(s[at + attr_off::NON_RESIDENT] == r[at + attr_off::NON_RESIDENT]);
    assert(s[at + attr_off::RESIDENT_VALUE_OFFSET] == r[at + attr_off::RESIDENT_VALUE_OFFSET]);
    assert(s[at + attr_off::RESIDENT_VALUE_OFFSET + 1] == r[at + attr_off::RESIDENT_VALUE_OFFSET
        + 1]);
}

/// Making a value as long as it was undoes making it longer, byte for byte,
/// where the attribute was no longer than its value needed and the bytes behind
/// those in use were zero.
pub proof fn lemma_shrink_undoes_growth(r: Seq<u8>, at: int, n: int)
    requires
        REC_OFF_BYTES_ALLOCATED + 4 <= at,
        attr_io::attribute_at(r, attr_resize::used(r), at),
        !attr_io::non_resident_at(r, at),
        value_length_at(r, at) <= n <= u32::MAX,
        attr_resize::length_at(r, at) == attr_resize::length_for_value(
            r,
            at,
            value_length_at(r, at),
        ),
        forall|k: int| attr_resize::used(r) <= k < r.len() ==> #[trigger] r[k] == 0,
        attr_resize::resize_defined(r, at, n),
        attr_resize::resized(r, at, n) is Ok,
    ensures
        ({
            let s = attr_resize::resized(r, at, n)->Ok_0;
            &&& attr_resize::resize_defined(s, at, value_length_at(r, at))
            &&& attr_resize::resized(s, at, value_length_at(r, at)) == Ok::<Seq<u8>, Seq<char>>(r)
        }),
{
    let s = attr_resize::resized(r, at, n)->Ok_0;
    let old_len = value_length_at(r, at);
    let length = attr_resize::length_at(r, at);
    let new_length = attr_resize::length_for_value(r, at, n);
    assert(length >= 0x18 && at + length <= attr_resize::used(r) <= r.len());
    let offset = bytes::le16(r, at + attr_off::RESIDENT_VALUE_OFFSET);
    lemma_aligned_grows(offset + old_len, offset + n);
    if new_length == length {
        lemma_length_restored(r, at, n);
    } else {
        lemma_growth_undone(r, at, n);
    }
}

proof fn lemma_aligned_grows(a: int, b: int)
    requires
        a <= b,
    ensures
        attr_resize::aligned8(a) <= attr_resize::aligned8(b),
{
}

proof fn lemma_growth_undone(r: Seq<u8>, at: int, n: int)
    requires
        REC_OFF_BYTES_ALLOCATED + 4 <= at,
        0 <= n <= u32::MAX,
        !attr_io::non_resident_at(r, at),
        0x18 <= attr_resize::length_at(r, at) < attr_resize::length_for_value(r, at, n),
        at + attr_resize::length_at(r, at) <= attr_resize::used(r) <= r.len(),
        attr_resize::length_at(r, at) == attr_resize::length_for_value(
            r,
            at,
            value_length_at(r, at),
        ),
        forall|k: int| attr_resize::used(r) <= k < r.len() ==> #[trigger] r[k] == 0,
        attr_resize::resize_defined(r, at, n),
        attr_resize::resized(r, at, n) is Ok,
    ensures
        ({
            let s = attr_resize::resized(r, at, n)->Ok_0;
            &&& attr_resize::resize_defined(s, at, value_length_at(r, at))
            &&& attr_resize::resized(s, at, value_length_at(r, at)) == Ok::<Seq<u8>, Seq<char>>(r)
        }),
{
    let old_len = value_length_at(r, at);
    let length = attr_resize::length_at(r, at);
    let new_length = attr_resize::length_for_value(r, at, n);
    let s = refitted(r, at, new_length, n);
    assert(attr_resize::resized(r, at, n) == Ok::<Seq<u8>, Seq<char>>(s));
    assert(!attr_resize::too_long(r, at, new_length));
    assert(attr_resize::used(r) + new_length - length <= attr_resize::allocated(r) <= u32::MAX);
    lemma_grows(r, at, new_length, n);
    lemma_same_kind(r, s, at);
    lemma_shrinks(r, s, at, new_length - length);
    lemma_shrink_is(r, s, at, old_len);
}

proof fn lemma_shrink_is(r: Seq<u8>, s: Seq<u8>, at: int, n: int)
    requires
        0 <= at,
        at + 0x18 <= s.len(),
        REC_OFF_BYTES_ALLOCATED + 4 <= at,
        !attr_io::non_resident_at(s, at),
        attr_resize::length_for_value(s, at, n) < attr_resize::length_at(s, at),
        0 <= attr_resize::length_for_value(s, at, n),
        at + attr_resize::length_at(s, at) <= attr_resize::used(s) <= s.len(),
        refitted(s, at, attr_resize::length_for_value(s, at, n), n) == r,
    ensures
        attr_resize::resize_defined(s, at, n),
        attr_resize::resized(s, at, n) == Ok::<Seq<u8>, Seq<char>>(r),
{
}

/// A value that grew within its attribute and is made as short again leaves the
/// record what it was.
proof fn lemma_length_restored(r: Seq<u8>, at: int, n: int)
    requires
        REC_OFF_BYTES_ALLOCATED + 4 <= at,
        at + 0x18 <= r.len(),
        0 <= n <= u32::MAX,
    ensures
        ({
            let field = at + attr_off::RESIDENT_VALUE_LENGTH;
            let s = bytes::patch(r, field, bytes::bytes32(n));
            &&& s.len() == r.len()
            &&& attr_io::non_resident_at(s, at) == attr_io::non_resident_at(r, at)
            &&& bytes::le16(s, at + attr_off::RESIDENT_VALUE_OFFSET) == bytes::le16(
                r,
                at + attr_off::RESIDENT_VALUE_OFFSET,
            )
            &&& attr_resize::length_at(s, at) == attr_resize::length_at(r, at)
            &&& bytes::patch(s, field, bytes::bytes32(value_length_at(r, at))) == r
        }),
{
    let field = at + attr_off::RESIDENT_VALUE_LENGTH;
    let x = bytes::bytes32(n);
    let y = bytes::bytes32(value_length_at(r, at));
    assert(x.len() == 4 && y.len() == 4);
    let s = bytes::patch(r, field, x);
    bytes::lemma_bytes_of_le32(r, field);
    lemma_same_kind(r, s, at);
    assert(bytes::patch(s, field, y) =~= r);
}

} // verus!
