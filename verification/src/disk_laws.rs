//! What stands where on a volume: bits of the bitmap, sectors of a record, pieces
//! of a transfer.

use vstd::arithmetic::power2::{lemma2_to64, pow2};
use vstd::prelude::*;

use crate::bitmap;
use crate::bitmap::BitmapLocation;
use crate::bytes;
use crate::chunks;
use crate::chunks::MappedChunk;
use crate::mft_io;
use crate::mft_io::BootParams;
use crate::text;

verus! {

/// The bits of a byte are numbered from the one that counts least on.
pub proof fn lemma_bits_count_by_two(byte: u8, bit: int)
    requires
        0 <= bit < 8,
    ensures
        bitmap::is_set(byte, bit) <==> (byte as int / pow2(bit as nat) as int) % 2 == 1,
{
    lemma2_to64();
    let k = bit as u8;
    if bit == 0 {
        assert(k == 0 ==> ((byte >> k) & 1u8) == (byte / 1) % 2) by (bit_vector);
    } else if bit == 1 {
        assert(k == 1 ==> ((byte >> k) & 1u8) == (byte / 2) % 2) by (bit_vector);
    } else if bit == 2 {
        assert(k == 2 ==> ((byte >> k) & 1u8) == (byte / 4) % 2) by (bit_vector);
    } else if bit == 3 {
        assert(k == 3 ==> ((byte >> k) & 1u8) == (byte / 8) % 2) by (bit_vector);
    } else if bit == 4 {
        assert(k == 4 ==> ((byte >> k) & 1u8) == (byte / 16) % 2) by (bit_vector);
    } else if bit == 5 {
        assert(k == 5 ==> ((byte >> k) & 1u8) == (byte / 32) % 2) by (bit_vector);
    } else if bit == 6 {
        assert(k == 6 ==> ((byte >> k) & 1u8) == (byte / 64) % 2) by (bit_vector);
    } else {
        assert(k == 7 ==> ((byte >> k) & 1u8) == (byte / 128) % 2) by (bit_vector);
    }
}

/// A cluster is in use where its bit is 1: bit `k % 8` of byte `k / 8` of the
/// bitmap, wherever on disk that byte is.
pub proof fn lemma_bit_of_a_cluster(c: spec_fn(int) -> u8, bm: &BitmapLocation, b: Seq<u8>, k: int)
    requires
        0 <= k,
    ensures
        bitmap::allocated(c, bm, k) <==> (c(
            chunks::place(bm.runs@, bm.params.cluster_size as int, k / 8),
        ) as int / pow2((k % 8) as nat) as int) % 2 == 1,
        bitmap::bit_of(b, k) <==> (b[k / 8] as int / pow2((k % 8) as nat) as int) % 2 == 1,
{
    lemma_bits_count_by_two(bitmap::stored(c, bm, k / 8), k % 8);
    lemma_bits_count_by_two(b[k / 8], k % 8);
}

/// What is free are the clusters whose bits are 0, each counted once.
pub proof fn lemma_free_clusters_are_counted(c: spec_fn(int) -> u8, bm: &BitmapLocation, k: int)
    requires
        0 <= k,
    ensures
        vstd::set_lib::set_int_range(0, k).filter(|j: int| !bitmap::allocated(c, bm, j)).len()
            == bitmap::free_clusters(c, bm, k),
        vstd::set_lib::set_int_range(0, k).filter(|j: int| bitmap::allocated(c, bm, j)).len()
            == bitmap::set_bits(c, bm, k),
        bitmap::free_clusters(c, bm, k) + bitmap::set_bits(c, bm, k) == k,
    decreases k,
{
    let free = |j: int| !bitmap::allocated(c, bm, j);
    let taken = |j: int| bitmap::allocated(c, bm, j);
    let all = vstd::set_lib::set_int_range(0, k);
    vstd::set_lib::lemma_int_range(0, k);
    if k == 0 {
        assert(all.filter(free) =~= Set::<int>::empty());
        assert(all.filter(taken) =~= Set::<int>::empty());
    } else {
        lemma_free_clusters_are_counted(c, bm, k - 1);
        let less = vstd::set_lib::set_int_range(0, k - 1);
        vstd::set_lib::lemma_int_range(0, k - 1);
        if bitmap::allocated(c, bm, k - 1) {
            assert(all.filter(taken) =~= less.filter(taken).insert(k - 1));
            assert(all.filter(free) =~= less.filter(free));
        } else {
            assert(all.filter(free) =~= less.filter(free).insert(k - 1));
            assert(all.filter(taken) =~= less.filter(taken));
        }
    }
}

/// The first bit of a kind is one of that kind, and none before it is.
pub proof fn lemma_first_of_a_kind(b: Seq<u8>, from: int, i: int, n: int, on: bool)
    ensures
        match bitmap::first_with(b, from, i, n, on) {
            Some(k) => i <= k < n && bitmap::bit_of(b, from + k) == on && forall|j: int|
                i <= j < k ==> #[trigger] bitmap::bit_of(b, from + j) != on,
            None => forall|j: int| i <= j < n ==> #[trigger] bitmap::bit_of(b, from + j) != on,
        },
    decreases n - i,
{
    if i < n && bitmap::bit_of(b, from + i) != on {
        lemma_first_of_a_kind(b, from, i + 1, n, on);
        match bitmap::first_with(b, from, i, n, on) {
            Some(k) => {
                assert forall|j: int| i <= j < k implies #[trigger] bitmap::bit_of(b, from + j)
                    != on by {
                    if j > i {
                        assert(i + 1 <= j < k);
                    }
                }
            },
            None => {
                assert forall|j: int| i <= j < n implies #[trigger] bitmap::bit_of(b, from + j)
                    != on by {
                    if j > i {
                        assert(i + 1 <= j < n);
                    }
                }
            },
        }
    }
}

/// The bytes that hold the bits of clusters reach from that of the first to that
/// of the last.
pub proof fn lemma_bytes_of_clusters(lcn: int, n: int)
    requires
        0 <= lcn,
        0 < n,
    ensures
        bitmap::byte_span(lcn, n) == (lcn + n - 1) / 8 - lcn / 8 + 1,
{
}

/// Clusters are protected where one of them is: cluster 0, those of the master
/// file table, and those of the other ranges.
pub proof fn lemma_what_is_protected(bm: &BitmapLocation, lcn: u64, n: u64)
    requires
        0 < n,
        lcn + n <= u64::MAX,
        bm.params.mft_lcn + bm.mft_clusters <= u64::MAX,
        forall|i: int|
            0 <= i < bm.other_protected@.len() ==> (#[trigger] bm.other_protected@[i]).0
                < bm.other_protected@[i].1,
    ensures
        bm.protects(lcn, n) <==> exists|x: int|
            lcn <= x < lcn + n && #[trigger] is_kept(bm, x),
{
    let end = bitmap::saturated_sum(lcn, n);
    assert(end == lcn + n);
    if bm.protects(lcn, n) {
        if lcn == 0 {
            assert(is_kept(bm, 0));
        } else if bm.mft_clusters != 0 && bm.params.mft_lcn < lcn + n && lcn < bm.params.mft_lcn
            + bm.mft_clusters {
            let x = if bm.params.mft_lcn < lcn {
                lcn as int
            } else {
                bm.params.mft_lcn as int
            };
            assert(is_kept(bm, x));
        } else {
            let i = choose|i: int|
                0 <= i < bm.other_protected@.len() && #[trigger] bitmap::overlaps(
                    bm.other_protected@[i],
                    lcn,
                    end,
                );
            let range = bm.other_protected@[i];
            let x = if range.0 < lcn {
                lcn as int
            } else {
                range.0 as int
            };
            assert(range.0 <= x < range.1);
            assert(is_kept(bm, x));
        }
    }
    if exists|x: int| lcn <= x < lcn + n && #[trigger] is_kept(bm, x) {
        let x = choose|x: int| lcn <= x < lcn + n && #[trigger] is_kept(bm, x);
        if x != 0 && !(bm.params.mft_lcn <= x < bm.params.mft_lcn + bm.mft_clusters) {
            let i = choose|i: int|
                0 <= i < bm.other_protected@.len() && (#[trigger] bm.other_protected@[i]).0 <= x
                    < bm.other_protected@[i].1;
            assert(bitmap::overlaps(bm.other_protected@[i], lcn, end));
        }
    }
}

/// Cluster `x` is the first of the volume, or one of the master file table, or one
/// of the other ranges.
pub open spec fn is_kept(bm: &BitmapLocation, x: int) -> bool {
    ||| x == 0
    ||| bm.params.mft_lcn <= x < bm.params.mft_lcn + bm.mft_clusters
    ||| exists|i: int|
        0 <= i < bm.other_protected@.len() && (#[trigger] bm.other_protected@[i]).0 <= x
            < bm.other_protected@[i].1
}

/// A quotient that is rounded up is the least that, taken so often, is enough.
pub proof fn lemma_rounded_quotient(a: int, b: int)
    requires
        0 <= a,
        0 < b,
    ensures
        (mft_io::ceil_div(a, b) - 1) * b < a <= mft_io::ceil_div(a, b) * b,
{
    let q = mft_io::ceil_div(a, b);
    vstd::arithmetic::div_mod::lemma_fundamental_div_mod(a + b - 1, b);
    vstd::arithmetic::div_mod::lemma_mod_bound(a + b - 1, b);
    let m = (a + b - 1) % b;
    assert(b * q == q * b && (q - 1) * b == q * b - b) by (nonlinear_arith);
}

/// A volume has as many clusters as its bytes fill, the last one perhaps not
/// wholly, and its bytes are those of its sectors.
pub proof fn lemma_clusters_of_a_volume(params: BootParams)
    requires
        params.cluster_size > 0,
        params.total_sectors * params.bytes_per_sector <= u64::MAX,
    ensures
        params.volume_size() == params.total_sectors * params.bytes_per_sector,
        (params.capacity() - 1) * params.cluster_size < params.volume_size() <= params.capacity()
            * params.cluster_size,
{
    assert(0 <= params.total_sectors * params.bytes_per_sector) by (nonlinear_arith);
    lemma_rounded_quotient(params.volume_size(), params.cluster_size as int);
}

/// A transfer is at its byte of its cluster, and is refused exactly where it
/// would end behind the volume's last cluster or the device's last byte.
pub proof fn lemma_where_a_transfer_is(
    params: BootParams,
    lcn: u64,
    off: u64,
    byte: u64,
    len: u64,
    device_bytes: u64,
)
    ensures
        ({
            let at = (lcn + off) * params.cluster_size + byte;
            let span = mft_io::span(params, lcn, off, byte, len, device_bytes);
            &&& span is Ok <==> at + len <= params.capacity() * params.cluster_size && at + len
                <= device_bytes
            &&& span matches Ok(start) ==> start == at
        }),
{
}

/// The record begins with the four letters, is a whole number of sectors, and its
/// update sequence array is behind the header, as long as it must be, and before
/// the end of the first sector.
pub open spec fn can_be_fixed(b: Seq<u8>, bps: int, magic: Seq<u8>) -> bool {
    &&& b.len() >= 8
    &&& forall|k: int| 0 <= k < 4 ==> #[trigger] b[k] == magic[k]
    &&& bps >= 2
    &&& exists|n: int| 1 <= n && b.len() == #[trigger] (n * bps) && bytes::le16(b, 6) == n + 1
    &&& 8 <= bytes::le16(b, 4)
    &&& bytes::le16(b, 4) + 2 * bytes::le16(b, 6) <= bps - 2
}

proof fn lemma_shape(b: Seq<u8>, bps: int, magic: Seq<u8>)
    ensures
        can_be_fixed(b, bps, magic) <==> mft_io::has_magic(b, magic) && mft_io::fixup_shape(b, bps),
{
    if can_be_fixed(b, bps, magic) {
        let n = choose|n: int|
            1 <= n && b.len() == #[trigger] (n * bps) && bytes::le16(b, 6) == n + 1;
        vstd::arithmetic::div_mod::lemma_fundamental_div_mod_converse(
            b.len() as int,
            bps,
            n,
            0,
        );
        assert(n * bps >= bps) by (nonlinear_arith)
            requires
                n >= 1,
                bps >= 2,
        ;
        assert(b[0] == magic[0] && b[1] == magic[1] && b[2] == magic[2] && b[3] == magic[3]);
    }
    if mft_io::has_magic(b, magic) && mft_io::fixup_shape(b, bps) {
        let n = b.len() as int / bps;
        vstd::arithmetic::div_mod::lemma_fundamental_div_mod(b.len() as int, bps);
        assert(bps * n == n * bps) by (nonlinear_arith);
        assert(b.len() == n * bps);
        if n < 1 {
            assert(n * bps <= 0) by (nonlinear_arith)
                requires
                    n <= 0,
                    bps >= 2,
            ;
        }
    }
}

proof fn lemma_torn(b: Seq<u8>, bps: int, s: int)
    requires
        bps >= 2,
        0 <= s,
    ensures
        mft_io::first_torn(b, bps, s) is None <==> forall|t: int|
            s <= t < b.len() as int / bps ==> #[trigger] mft_io::sector_sealed(b, bps, t),
    decreases b.len() / (bps as nat) - s,
{
    if s < b.len() / (bps as nat) && mft_io::sector_sealed(b, bps, s) {
        lemma_torn(b, bps, s + 1);
        if mft_io::first_torn(b, bps, s) is None {
            assert forall|t: int| s <= t < b.len() as int / bps implies
                #[trigger] mft_io::sector_sealed(b, bps, t) by {
                if t > s {
                    assert(s + 1 <= t);
                }
            }
        }
    }
}

/// A record is taken from disk exactly where it can be fixed and each of its
/// sectors ends with the number at the head of the array. Each sector then ends
/// with its two bytes of the array, and all else is as it was.
pub proof fn lemma_record_is_fixed_on_read(b: Seq<u8>, bps: int, magic: Seq<u8>)
    ensures
        mft_io::fixed_on_read(b, bps, magic) is Ok <==> can_be_fixed(b, bps, magic) && forall|s: int|
            0 <= s < b.len() as int / bps ==> bytes::le16(b, #[trigger] (s * bps) + bps - 2)
                == bytes::le16(b, bytes::le16(b, 4)),
        mft_io::fixed_on_read(b, bps, magic) matches Ok(r) ==> {
            &&& r.len() == b.len()
            &&& forall|s: int|
                0 <= s < b.len() as int / bps ==> bytes::le16(r, #[trigger] (s * bps) + bps - 2)
                    == bytes::le16(b, bytes::le16(b, 4) + 2 * (s + 1))
            &&& forall|i: int| 0 <= i < b.len() && i % bps < bps - 2 ==> #[trigger] r[i] == b[i]
        },
{
    lemma_shape(b, bps, magic);
    if can_be_fixed(b, bps, magic) {
        lemma_torn(b, bps, 0);
        let sealed_all = forall|s: int|
            0 <= s < b.len() as int / bps ==> bytes::le16(b, #[trigger] (s * bps) + bps - 2)
                == bytes::le16(b, bytes::le16(b, 4));
        if sealed_all {
            assert forall|t: int| 0 <= t < b.len() as int / bps implies
                #[trigger] mft_io::sector_sealed(b, bps, t) by {
                assert(t * bps == t * bps);
            }
        }
        if mft_io::first_torn(b, bps, 0) is None {
            assert forall|s: int| 0 <= s < b.len() as int / bps implies bytes::le16(
                b,
                #[trigger] (s * bps) + bps - 2,
            ) == bytes::le16(b, bytes::le16(b, 4)) by {
                assert(mft_io::sector_sealed(b, bps, s));
            }
            let r = mft_io::unsealed(b, bps);
            assert forall|s: int| 0 <= s < b.len() as int / bps implies bytes::le16(
                r,
                #[trigger] (s * bps) + bps - 2,
            ) == bytes::le16(b, bytes::le16(b, 4) + 2 * (s + 1)) by {
                lemma_sector_end(b, bps, s);
            }
        }
    }
}

proof fn lemma_sector_end(b: Seq<u8>, bps: int, s: int)
    requires
        bps >= 2,
        0 <= s < b.len() as int / bps,
    ensures
        s * bps + bps <= b.len(),
        0 <= s * bps,
        (s * bps + bps - 2) % bps == bps - 2,
        (s * bps + bps - 1) % bps == bps - 1,
        (s * bps + bps - 2) / bps == s,
        (s * bps + bps - 1) / bps == s,
{
    vstd::arithmetic::div_mod::lemma_fundamental_div_mod_converse(
        s * bps + (bps - 2),
        bps,
        s,
        bps - 2,
    );
    vstd::arithmetic::div_mod::lemma_fundamental_div_mod_converse(
        s * bps + (bps - 1),
        bps,
        s,
        bps - 1,
    );
    let n = b.len() as int / bps;
    vstd::arithmetic::div_mod::lemma_fundamental_div_mod(b.len() as int, bps);
    assert(s * bps + bps <= bps * n) by (nonlinear_arith)
        requires
            s + 1 <= n,
            bps >= 2,
    ;
    assert(0 <= s * bps) by (nonlinear_arith)
        requires
            0 <= s,
            bps >= 2,
    ;
}

/// A record is made ready for disk exactly where it can be fixed. The number at
/// the head of the array goes up by one, and past 65535 to 1; every sector ends
/// with it; and what the sectors ended with is in the array, in their order. All
/// else is as it was.
pub proof fn lemma_record_is_fixed_on_write(b: Seq<u8>, bps: int, magic: Seq<u8>)
    ensures
        mft_io::fixed_on_write(b, bps, magic) is Ok <==> can_be_fixed(b, bps, magic),
        mft_io::fixed_on_write(b, bps, magic) matches Ok(r) ==> {
            let usa = bytes::le16(b, 4);
            let number = bytes::le16(r, usa);
            &&& r.len() == b.len()
            &&& number == if bytes::le16(b, usa) == 0xFFFF {
                1
            } else {
                bytes::le16(b, usa) + 1
            }
            &&& forall|s: int|
                0 <= s < b.len() as int / bps ==> {
                    &&& bytes::le16(r, #[trigger] (s * bps) + bps - 2) == number
                    &&& bytes::le16(r, usa + 2 * (s + 1)) == bytes::le16(b, s * bps + bps - 2)
                }
            &&& forall|i: int|
                0 <= i < b.len() && i % bps < bps - 2 && !(usa <= i < usa + 2 * bytes::le16(b, 6))
                    ==> #[trigger] r[i] == b[i]
        },
{
    lemma_shape(b, bps, magic);
    if can_be_fixed(b, bps, magic) {
        let usa = bytes::le16(b, 4);
        let r = mft_io::sealed(b, bps);
        let next = mft_io::next_number(bytes::le16(b, usa));
        let number = bytes::bytes16(next);
        vstd::arithmetic::div_mod::lemma_small_mod(usa as nat, bps as nat);
        vstd::arithmetic::div_mod::lemma_small_mod((usa + 1) as nat, bps as nat);
        assert(r[usa] == number[0] && r[usa + 1] == number[1]);
        assert(bytes::le16(r, usa) == next);
        assert forall|s: int| 0 <= s < b.len() as int / bps implies {
            &&& bytes::le16(r, #[trigger] (s * bps) + bps - 2) == next
            &&& bytes::le16(r, usa + 2 * (s + 1)) == bytes::le16(b, s * bps + bps - 2)
        } by {
            lemma_sector_end(b, bps, s);
            assert(r[s * bps + bps - 2] == number[0]);
            assert(r[s * bps + bps - 1] == number[1]);
            let i = usa + 2 * (s + 1);
            assert(i + 1 < usa + 2 * bytes::le16(b, 6));
            vstd::arithmetic::div_mod::lemma_small_mod(i as nat, bps as nat);
            vstd::arithmetic::div_mod::lemma_small_mod((i + 1) as nat, bps as nat);
            assert((s + 1) * bps == s * bps + bps) by (nonlinear_arith);
            assert((i - usa) / 2 == s + 1 && (i - usa) % 2 == 0);
            assert((i + 1 - usa) / 2 == s + 1 && (i + 1 - usa) % 2 == 1);
            assert(r[i] == b[(s + 1) * bps - 2]);
            assert(r[i + 1] == b[(s + 1) * bps - 2 + 1]);
        }
    }
}

/// A file record begins with the letters of `FILE`.
pub proof fn lemma_letters_of_a_record()
    ensures
        mft_io::file_magic().len() == 4,
        mft_io::file_magic()[0] == 'F' as int,
        mft_io::file_magic()[1] == 'I' as int,
        mft_io::file_magic()[2] == 'L' as int,
        mft_io::file_magic()[3] == 'E' as int,
{
}

/// The pieces of a transfer take the bytes of the buffer in turn: byte `j` of
/// piece `k` is as far into its piece on disk as it is in the buffer.
pub proof fn lemma_piece_by_piece(
    c: spec_fn(int) -> u8,
    ch: Seq<MappedChunk>,
    buf: Seq<u8>,
    n: int,
    k: int,
    j: int,
)
    requires
        chunks::laid_out(ch, n),
        0 <= k < ch.len(),
        0 <= j < ch[k].len,
    ensures
        ch[k].cursor == chunks::end_of(ch, k),
        chunks::end_of(ch, k + 1) == chunks::end_of(ch, k) + ch[k].len,
        chunks::position(ch, ch.len() as int, ch[k].cursor + j) == ch[k].disk_offset + j,
        0 <= ch[k].cursor + j < n,
        chunks::collected(c, ch, n)[ch[k].cursor + j] == c(ch[k].disk_offset + j),
        chunks::disjoint(ch) ==> chunks::scattered(
            c,
            ch,
            buf,
            ch.len() as int,
            ch[k].disk_offset + j,
        ) == buf[ch[k].cursor + j],
{
    assert(chunks::laid_at(ch, k));
    chunks::lemma_end_grows(ch, k + 1, ch.len() as int);
    chunks::lemma_end_grows(ch, 0, k);
    lemma_position_of(ch, ch.len() as int, k, j);
    if chunks::disjoint(ch) {
        lemma_scattered_at(c, ch, buf, ch.len() as int, k, j);
    }
}

proof fn lemma_position_of(ch: Seq<MappedChunk>, m: int, k: int, j: int)
    requires
        forall|i: int| 0 <= i < ch.len() ==> #[trigger] chunks::laid_at(ch, i),
        0 <= k < m <= ch.len(),
        0 <= j < ch[k].len,
    ensures
        chunks::position(ch, m, ch[k].cursor + j) == ch[k].disk_offset + j,
    decreases m,
{
    assert(chunks::laid_at(ch, k));
    assert(chunks::laid_at(ch, m - 1));
    if m - 1 > k {
        chunks::lemma_end_grows(ch, k + 1, m - 1);
        lemma_position_of(ch, m - 1, k, j);
    }
}

proof fn lemma_scattered_at(
    c: spec_fn(int) -> u8,
    ch: Seq<MappedChunk>,
    buf: Seq<u8>,
    m: int,
    k: int,
    j: int,
)
    requires
        chunks::disjoint(ch),
        0 <= k < m <= ch.len(),
        0 <= j < ch[k].len,
    ensures
        chunks::scattered(c, ch, buf, m, ch[k].disk_offset + j) == buf[ch[k].cursor + j],
    decreases m,
{
    assert(chunks::in_chunk(ch[k], ch[k].disk_offset + j));
    if m - 1 > k {
        assert(!chunks::in_chunk(ch[m - 1], ch[k].disk_offset + j));
        lemma_scattered_at(c, ch, buf, m - 1, k, j);
    }
}

/// A product and a sum that 64 bits do not hold are the greatest number that they
/// do.
pub proof fn lemma_greatest_number(a: u64, b: u64)
    ensures
        a * b <= u64::MAX ==> mft_io::saturated(a as int, b as int) == a * b,
        a * b > u64::MAX ==> mft_io::saturated(a as int, b as int) == u64::MAX,
        a + b <= u64::MAX ==> bitmap::saturated_sum(a, b) == a + b,
        a + b > u64::MAX ==> bitmap::saturated_sum(a, b) == u64::MAX,
{
}

/// The least of two numbers is neither above the one nor above the other, and is
/// one of them.
pub proof fn lemma_least_of_two(a: int, b: int)
    ensures
        bitmap::smaller(a, b) <= a,
        bitmap::smaller(a, b) <= b,
        bitmap::smaller(a, b) == a || bitmap::smaller(a, b) == b,
        crate::index_io::lesser(a, b) == bitmap::smaller(a, b),
{
}

/// Of a record whose sectors do not all end with the number at the head of the
/// array, the first that does not is named.
pub proof fn lemma_first_torn_sector_is_named(b: Seq<u8>, bps: int, magic: Seq<u8>, s: int)
    requires
        can_be_fixed(b, bps, magic),
        0 <= s < b.len() as int / bps,
        bytes::le16(b, s * bps + bps - 2) != bytes::le16(b, bytes::le16(b, 4)),
        forall|t: int|
            0 <= t < s ==> bytes::le16(b, #[trigger] (t * bps) + bps - 2) == bytes::le16(
                b,
                bytes::le16(b, 4),
            ),
    ensures
        mft_io::fixed_on_read(b, bps, magic) == Err::<Seq<u8>, Seq<char>>(
            "sector "@ + text::dec(s as nat)
                + " of the record does not end with the update sequence number"@,
        ),
{
    lemma_shape(b, bps, magic);
    assert forall|t: int| 0 <= t < s implies #[trigger] mft_io::sector_sealed(b, bps, t) by {
        assert(t * bps == t * bps);
    }
    lemma_first_torn_is(b, bps, 0, s);
}

proof fn lemma_first_torn_is(b: Seq<u8>, bps: int, t: int, s: int)
    requires
        bps >= 2,
        0 <= t <= s < b.len() as int / bps,
        !mft_io::sector_sealed(b, bps, s),
        forall|k: int| t <= k < s ==> #[trigger] mft_io::sector_sealed(b, bps, k),
    ensures
        mft_io::first_torn(b, bps, t) == Some(s),
    decreases s - t,
{
    if t < s {
        assert(mft_io::sector_sealed(b, bps, t));
        lemma_first_torn_is(b, bps, t + 1, s);
    }
}

} // verus!
