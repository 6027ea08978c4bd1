//! Little-endian fields and moves inside a byte buffer.

use vstd::prelude::*;

verus! {

/// The little-endian `u16` at `at`.
pub open spec fn le16(s: Seq<u8>, at: int) -> int {
    s[at] + s[at + 1] * 0x100
}

/// The little-endian `u32` at `at`.
pub open spec fn le32(s: Seq<u8>, at: int) -> int {
    le16(s, at) + le16(s, at + 2) * 0x1_0000
}

/// The little-endian `u64` at `at`.
pub open spec fn le64(s: Seq<u8>, at: int) -> int {
    le32(s, at) + le32(s, at + 4) * 0x1_0000_0000
}

/// The two bytes of `v`, least significant first.
pub open spec fn bytes16(v: int) -> Seq<u8> {
    seq![(v % 0x100) as u8, ((v / 0x100) % 0x100) as u8]
}

/// The four bytes of `v`, least significant first.
pub open spec fn bytes32(v: int) -> Seq<u8> {
    bytes16(v % 0x1_0000) + bytes16(v / 0x1_0000)
}

/// The eight bytes of `v`, least significant first.
pub open spec fn bytes64(v: int) -> Seq<u8> {
    bytes32(v % 0x1_0000_0000) + bytes32(v / 0x1_0000_0000)
}

/// `s` with the bytes from `at` on replaced by `b`.
pub open spec fn patch(s: Seq<u8>, at: int, b: Seq<u8>) -> Seq<u8> {
    Seq::new(s.len(), |i: int| if at <= i < at + b.len() { b[i - at] } else { s[i] })
}

/// `n` bytes of `v`.
pub open spec fn run_of(v: u8, n: int) -> Seq<u8> {
    Seq::new(n as nat, |i: int| v)
}

/// Two patches side by side are one.
pub proof fn lemma_patch_twice(s: Seq<u8>, at: int, a: Seq<u8>, b: Seq<u8>)
    ensures
        patch(patch(s, at, a), at + a.len(), b) == patch(s, at, a + b),
{
    assert(patch(patch(s, at, a), at + a.len(), b) =~= patch(s, at, a + b));
}

/// A number of several bytes is the sum of its bytes, each 256 times as much as
/// the one before it: the first counts once.
pub proof fn lemma_first_byte_counts_least(s: Seq<u8>, at: int)
    ensures
        le16(s, at) == s[at] + 0x100 * s[at + 1],
        le32(s, at) == s[at] + 0x100 * s[at + 1] + 0x1_0000 * s[at + 2] + 0x100_0000 * s[at + 3],
        le64(s, at) == s[at] + 0x100 * s[at + 1] + 0x1_0000 * s[at + 2] + 0x100_0000 * s[at + 3]
            + 0x1_0000_0000 * s[at + 4] + 0x100_0000_0000 * s[at + 5] + 0x1_0000_0000_0000 * s[at
            + 6] + 0x100_0000_0000_0000 * s[at + 7],
{
}

/// The bytes of a number, the one that counts least first: they are as many as
/// its size, and the number is read back from them.
pub proof fn lemma_bytes_of_a_number(v: int)
    requires
        0 <= v,
    ensures
        bytes16(v).len() == 2,
        bytes32(v).len() == 4,
        bytes64(v).len() == 8,
        v < 0x1_0000 ==> bytes16(v)[0] + 0x100 * bytes16(v)[1] == v,
        v < 0x1_0000_0000 ==> bytes32(v)[0] + 0x100 * bytes32(v)[1] + 0x1_0000 * bytes32(v)[2]
            + 0x100_0000 * bytes32(v)[3] == v,
        v < 0x1_0000_0000_0000_0000 ==> le32(bytes64(v), 0) == v % 0x1_0000_0000 && le32(
            bytes64(v),
            4,
        ) == v / 0x1_0000_0000,
{
    let a = v % 0x1_0000;
    let b = v / 0x1_0000;
    assert(bytes32(v)[0] == bytes16(a)[0] && bytes32(v)[1] == bytes16(a)[1]);
    assert(bytes32(v)[2] == bytes16(b)[0] && bytes32(v)[3] == bytes16(b)[1]);
    if v < 0x1_0000_0000_0000_0000 {
        let low = v % 0x1_0000_0000;
        let high = v / 0x1_0000_0000;
        let x = bytes32(low);
        let y = bytes32(high);
        let s = bytes64(v);
        assert(s[0] == x[0] && s[1] == x[1] && s[2] == x[2] && s[3] == x[3]);
        assert(s[4] == y[0] && s[5] == y[1] && s[6] == y[2] && s[7] == y[3]);
        lemma_le32_of_bytes(low);
        lemma_le32_of_bytes(high);
    }
}

proof fn lemma_le32_of_bytes(v: int)
    requires
        0 <= v < 0x1_0000_0000,
    ensures
        bytes32(v).len() == 4,
        le32(bytes32(v), 0) == v,
{
    let a = v % 0x1_0000;
    let b = v / 0x1_0000;
    let s = bytes32(v);
    assert(s[0] == bytes16(a)[0] && s[1] == bytes16(a)[1]);
    assert(s[2] == bytes16(b)[0] && s[3] == bytes16(b)[1]);
}

/// What is written over bytes is there from then on, and the others are as they
/// were.
pub proof fn lemma_patched(s: Seq<u8>, at: int, b: Seq<u8>)
    requires
        0 <= at,
        at + b.len() <= s.len(),
    ensures
        patch(s, at, b) == s.take(at) + b + s.skip(at + b.len()),
{
    assert(patch(s, at, b) =~= s.take(at) + b + s.skip(at + b.len()));
}

/// A power of two is 1, or twice a power of two.
pub proof fn lemma_powers_of_two(n: int)
    requires
        n >= 1,
    ensures
        power_of_two(1),
        power_of_two(2 * n) == power_of_two(n),
        !power_of_two(2 * n + 1),
{
}

pub fn get_u16(buf: &[u8], at: usize) -> (v: u16)
    requires
        at + 2 <= buf.len(),
    ensures
        v == le16(buf@, at as int),
{
    buf[at] as u16 + buf[at + 1] as u16 * 0x100
}

pub fn get_u32(buf: &[u8], at: usize) -> (v: u32)
    requires
        at + 4 <= buf.len(),
    ensures
        v == le32(buf@, at as int),
{
    get_u16(buf, at) as u32 + get_u16(buf, at + 2) as u32 * 0x1_0000
}

pub fn get_u64(buf: &[u8], at: usize) -> (v: u64)
    requires
        at + 8 <= buf.len(),
    ensures
        v == le64(buf@, at as int),
{
    get_u32(buf, at) as u64 + get_u32(buf, at + 4) as u64 * 0x1_0000_0000
}

pub fn put_u16(buf: &mut [u8], at: usize, v: u16)
    requires
        at + 2 <= old(buf).len(),
    ensures
        final(buf)@ == patch(old(buf)@, at as int, bytes16(v as int)),
{
    buf[at] = (v % 0x100) as u8;
    buf[at + 1] = (v / 0x100) as u8;
    assert(buf@ =~= patch(old(buf)@, at as int, bytes16(v as int)));
}

pub fn put_u32(buf: &mut [u8], at: usize, v: u32)
    requires
        at + 4 <= old(buf).len(),
    ensures
        final(buf)@ == patch(old(buf)@, at as int, bytes32(v as int)),
{
    put_u16(buf, at, (v % 0x1_0000) as u16);
    put_u16(buf, at + 2, (v / 0x1_0000) as u16);
    proof {
        lemma_patch_twice(
            old(buf)@,
            at as int,
            bytes16((v % 0x1_0000) as int),
            bytes16((v / 0x1_0000) as int),
        );
    }
}

/// A field reads back as what was written to it.
pub proof fn lemma_le16_of_patch(s: Seq<u8>, at: int, v: int)
    requires
        0 <= at,
        at + 2 <= s.len(),
        0 <= v < 0x1_0000,
    ensures
        le16(patch(s, at, bytes16(v)), at) == v,
{
}

/// A field reads back as what was written to it.
pub proof fn lemma_le32_of_patch(s: Seq<u8>, at: int, v: int)
    requires
        0 <= at,
        at + 4 <= s.len(),
        0 <= v < 0x1_0000_0000,
    ensures
        le32(patch(s, at, bytes32(v)), at) == v,
{
    let a = bytes16(v % 0x1_0000);
    let b = bytes16(v / 0x1_0000);
    lemma_patch_twice(s, at, a, b);
    lemma_le16_of_patch(s, at, v % 0x1_0000);
    lemma_le16_of_patch(patch(s, at, a), at + 2, v / 0x1_0000);
}

/// The bytes of a field are those of the number that it reads as.
pub proof fn lemma_bytes_of_le32(s: Seq<u8>, at: int)
    requires
        0 <= at,
        at + 4 <= s.len(),
    ensures
        forall|k: int| at <= k < at + 4 ==> #[trigger] s[k] == bytes32(le32(s, at))[k - at],
{
    let v = le32(s, at);
    let low = s[at] + 0x100 * s[at + 1];
    let high = s[at + 2] + 0x100 * s[at + 3];
    assert(v == low + 0x1_0000 * high);
    assert(v % 0x1_0000 == low && v / 0x1_0000 == high);
    let b = bytes32(v);
    assert(b[0] == s[at] && b[1] == s[at + 1] && b[2] == s[at + 2] && b[3] == s[at + 3]);
}

/// A field reads back as what was written to it.
pub proof fn lemma_le64_of_patch(s: Seq<u8>, at: int, v: int)
    requires
        0 <= at,
        at + 8 <= s.len(),
        0 <= v < 0x1_0000_0000_0000_0000,
    ensures
        le64(patch(s, at, bytes64(v)), at) == v,
{
    let a = bytes32(v % 0x1_0000_0000);
    let b = bytes32(v / 0x1_0000_0000);
    lemma_patch_twice(s, at, a, b);
    lemma_le32_of_patch(s, at, v % 0x1_0000_0000);
    lemma_le32_of_patch(patch(s, at, a), at + 4, v / 0x1_0000_0000);
    assert(le32(patch(patch(s, at, a), at + 4, b), at) == le32(patch(s, at, a), at));
}

/// Copies `src` over the bytes from `at` on.
pub fn write_bytes(buf: &mut [u8], at: usize, src: &[u8])
    requires
        at + src.len() <= old(buf).len(),
    ensures
        final(buf)@ == patch(old(buf)@, at as int, src@),
{
    let n: usize = src.len();
    let mut i: usize = 0;
    while i < n
        invariant
            n == src@.len(),
            i <= n,
            at + n <= old(buf).len(),
            buf@ == patch(old(buf)@, at as int, src@.subrange(0, i as int)),
        decreases n - i,
    {
        buf[at + i] = src[i];
        i = i + 1;
        assert(buf@ =~= patch(old(buf)@, at as int, src@.subrange(0, i as int)));
    }
    assert(src@.subrange(0, n as int) =~= src@);
}

/// Sets the bytes of `[start, end)` to `v`.
pub fn fill_bytes(buf: &mut [u8], start: usize, end: usize, v: u8)
    requires
        start <= end <= old(buf).len(),
    ensures
        final(buf)@ == patch(old(buf)@, start as int, run_of(v, end - start)),
{
    let mut i: usize = start;
    while i < end
        invariant
            start <= i <= end <= old(buf).len(),
            buf@ == patch(old(buf)@, start as int, run_of(v, i - start)),
        decreases end - i,
    {
        buf[i] = v;
        i = i + 1;
        assert(buf@ =~= patch(old(buf)@, start as int, run_of(v, i - start)));
    }
}

/// Moves the bytes of `[start, end)` so that they begin at `dest`. The two
/// ranges may overlap.
pub fn move_bytes(buf: &mut [u8], start: usize, end: usize, dest: usize)
    requires
        start <= end <= old(buf).len(),
        dest + (end - start) <= old(buf).len(),
    ensures
        final(buf)@ == patch(
            old(buf)@,
            dest as int,
            old(buf)@.subrange(start as int, end as int),
        ),
{
    let n: usize = end - start;
    if dest <= start {
        let mut i: usize = 0;
        while i < n
            invariant
                start <= end <= old(buf).len(),
                n == end - start,
                dest <= start,
                i <= n,
                buf@ == patch(
                    old(buf)@,
                    dest as int,
                    old(buf)@.subrange(start as int, start + i),
                ),
            decreases n - i,
        {
            buf[dest + i] = buf[start + i];
            i = i + 1;
            assert(buf@ =~= patch(
                old(buf)@,
                dest as int,
                old(buf)@.subrange(start as int, start + i),
            ));
        }
    } else {
        let mut i: usize = n;
        assert(buf@ =~= patch(
            old(buf)@,
            dest + i,
            old(buf)@.subrange(start + i, end as int),
        ));
        while i > 0
            invariant
                start <= end <= old(buf).len(),
                n == end - start,
                start < dest,
                dest + n <= old(buf).len(),
                i <= n,
                buf@ == patch(old(buf)@, dest + i, old(buf)@.subrange(start + i, end as int)),
            decreases i,
        {
            i = i - 1;
            buf[dest + i] = buf[start + i];
            assert(buf@ =~= patch(
                old(buf)@,
                dest + i,
                old(buf)@.subrange(start + i, end as int),
            ));
        }
    }
}

/// A copy of the bytes of `[start, end)`.
pub fn copy_range(buf: &[u8], start: usize, end: usize) -> (v: Vec<u8>)
    requires
        start <= end <= buf.len(),
    ensures
        v@ == buf@.subrange(start as int, end as int),
{
    let mut v: Vec<u8> = Vec::with_capacity(end - start);
    let mut i: usize = start;
    while i < end
        invariant
            start <= i <= end <= buf.len(),
            v@ == buf@.subrange(start as int, i as int),
        decreases end - i,
    {
        v.push(buf[i]);
        i = i + 1;
        assert(v@ =~= buf@.subrange(start as int, i as int));
    }
    v
}

/// `n` is 1, 2, 4, and so on.
pub open spec fn power_of_two(n: int) -> bool
    decreases n,
{
    n == 1 || (n > 1 && n % 2 == 0 && power_of_two(n / 2))
}

/// Whether `n` is 1, 2, 4, and so on.
pub fn is_power_of_two(n: u64) -> (yes: bool)
    ensures
        yes == power_of_two(n as int),
{
    let mut m: u64 = n;
    while m > 1
        invariant
            power_of_two(m as int) == power_of_two(n as int),
        decreases m,
    {
        if m % 2 != 0 {
            return false;
        }
        m = m / 2;
    }
    m == 1
}

} // verus!
