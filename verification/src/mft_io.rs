//! The geometry of a volume, and the fixups of its multi-sector structures.

use vstd::prelude::*;

use crate::bytes;
use crate::bytes::{get_u16, put_u16};
use crate::text;
use crate::text::{decimal, decimal_wide};

verus! {

/// What the boot sector says of the volume.
#[derive(Debug, Clone, Copy)]
pub struct BootParams {
    pub bytes_per_sector: u16,
    pub sectors_per_cluster: u64,
    pub cluster_size: u64,
    pub mft_lcn: u64,
    pub file_record_size: u64,
    pub total_sectors: u64,
    pub serial_number: u64,
    pub oem_id: [u8; 8],
}

/// The product, or the greatest `u64`.
pub open spec fn saturated(a: int, b: int) -> int {
    if a * b > u64::MAX {
        u64::MAX as int
    } else {
        a * b
    }
}

pub(crate) fn saturating_product(a: u64, b: u64) -> (p: u64)
    ensures
        p == saturated(a as int, b as int),
{
    match a.checked_mul(b) {
        Some(p) => p,
        None => u64::MAX,
    }
}

/// `a / b`, rounded up.
pub open spec fn ceil_div(a: int, b: int) -> int {
    (a + b - 1) / b
}

pub(crate) fn div_up(a: u64, b: u64) -> (q: u64)
    requires
        b > 0,
    ensures
        q == ceil_div(a as int, b as int),
{
    let wide: u128 = (a as u128 + b as u128 - 1) / (b as u128);
    proof {
        lemma_ceil_div_bound(a as int, b as int);
    }
    wide as u64
}

proof fn lemma_ceil_div_bound(a: int, b: int)
    requires
        0 <= a,
        0 < b,
    ensures
        0 <= ceil_div(a, b) <= a,
{
    assert((a + b - 1) / b <= a) by (nonlinear_arith)
        requires
            0 <= a,
            0 < b,
    ;
    assert((a + b - 1) / b >= 0) by (nonlinear_arith)
        requires
            0 <= a,
            0 < b,
    ;
}

impl BootParams {
    /// The bytes of the volume's sectors.
    pub open spec fn volume_size(&self) -> int {
        saturated(self.total_sectors as int, self.bytes_per_sector as int)
    }

    /// The clusters of the volume, the last of which may be only partly there:
    /// the sector behind the volume's own holds the backup boot sector.
    pub open spec fn capacity(&self) -> int {
        ceil_div(
            self.volume_size(),
            if self.cluster_size == 0 {
                1
            } else {
                self.cluster_size as int
            },
        )
    }

    /// The bytes of the volume's sectors.
    pub fn volume_bytes(&self) -> (n: u64)
        ensures
            n == self.volume_size(),
    {
        saturating_product(self.total_sectors, self.bytes_per_sector as u64)
    }

    /// The clusters of the volume.
    pub fn cluster_capacity(&self) -> (n: u64)
        ensures
            n == self.capacity(),
    {
        div_up(
            self.volume_bytes(),
            if self.cluster_size == 0 {
                1
            } else {
                self.cluster_size
            },
        )
    }
}

/// The device offset of byte `byte` of the cluster `off` clusters past `lcn`.
pub open spec fn cluster_offset(params: BootParams, lcn: int, off: int, byte: int) -> int {
    (lcn + off) * params.cluster_size + byte
}

/// The bytes that a transfer may reach: those of the volume's clusters and of
/// the device.
pub open spec fn transfer_limit(params: BootParams, device_bytes: int) -> int {
    let volume = params.capacity() * params.cluster_size;
    if volume < device_bytes {
        volume
    } else {
        device_bytes
    }
}

/// What `cluster_span` gives.
pub open spec fn span(
    params: BootParams,
    lcn: u64,
    off: u64,
    byte: u64,
    len: u64,
    device_bytes: u64,
) -> Result<int, Seq<char>> {
    let start = cluster_offset(params, lcn as int, off as int, byte as int);
    let limit = transfer_limit(params, device_bytes as int);
    if start + len > limit {
        Err(
            "a transfer of "@ + text::dec(len as nat) + " bytes at byte "@ + text::dec(byte as nat)
                + " of cluster "@ + text::dec((lcn + off) as nat) + " ends past the "@ + text::dec(
                limit as nat,
            ) + " bytes of the volume"@,
        )
    } else {
        Ok(start)
    }
}

/// The device offset of `len` bytes from byte `byte_in_cluster` of a cluster on,
/// which must lie inside the volume and the device.
pub fn cluster_span(
    params: &BootParams,
    lcn: u64,
    vcn_offset: u64,
    byte_in_cluster: u64,
    len: u64,
    device_bytes: u64,
) -> (res: Result<u64, String>)
    ensures
        match (res, span(*params, lcn, vcn_offset, byte_in_cluster, len, device_bytes)) {
            (Ok(v), Ok(w)) => v == w && v + len <= u64::MAX,
            (Err(m), Err(w)) => m@ == w,
            _ => false,
        },
{
    let cs: u128 = params.cluster_size as u128;
    let cluster: u128 = lcn as u128 + vcn_offset as u128;
    let capacity: u64 = params.cluster_capacity();
    proof {
        lemma_product_fits(capacity as int, cs as int);
    }
    let volume: u128 = capacity as u128 * cs;
    let limit: u128 = if volume < device_bytes as u128 {
        volume
    } else {
        device_bytes as u128
    };
    if cluster <= 0xFFFF_FFFF_FFFF_FFFF {
        proof {
            lemma_product_fits(cluster as int, cs as int);
        }
        let start: u128 = cluster * cs + byte_in_cluster as u128;
        if start + len as u128 <= limit {
            return Ok(start as u64);
        }
    } else {
        proof {
            let a = cluster as int;
            let c = cs as int;
            assert(c == 0 ==> a * c == 0) by (nonlinear_arith);
            assert(c > 0 ==> a * c > 0xFFFF_FFFF_FFFF_FFFF) by (nonlinear_arith)
                requires
                    a > 0xFFFF_FFFF_FFFF_FFFF,
            ;
        }
        if cs == 0 && byte_in_cluster as u128 + len as u128 <= limit {
            return Ok(byte_in_cluster);
        }
    }
    Err(
        "a transfer of ".to_owned().concat(decimal(len).as_str()).concat(" bytes at byte ").concat(
            decimal(byte_in_cluster).as_str(),
        ).concat(" of cluster ").concat(decimal_wide(cluster).as_str()).concat(
            " ends past the ",
        ).concat(decimal_wide(limit).as_str()).concat(" bytes of the volume"),
    )
}

proof fn lemma_product_fits(a: int, b: int)
    requires
        0 <= a <= 0xFFFF_FFFF_FFFF_FFFF,
        0 <= b <= 0xFFFF_FFFF_FFFF_FFFF,
    ensures
        0 <= a * b <= 0xFFFF_FFFF_FFFF_FFFE_0000_0000_0000_0001,
{
    assert(0 <= a * b <= 0xFFFF_FFFF_FFFF_FFFF * 0xFFFF_FFFF_FFFF_FFFF) by (nonlinear_arith)
        requires
            0 <= a <= 0xFFFF_FFFF_FFFF_FFFF,
            0 <= b <= 0xFFFF_FFFF_FFFF_FFFF,
    ;
}

/// Offset of the update sequence array.
pub open spec fn usa_offset(b: Seq<u8>) -> int {
    bytes::le16(b, 4)
}

/// Entries of the update sequence array: the number, and one for each sector.
pub open spec fn usa_count(b: Seq<u8>) -> int {
    bytes::le16(b, 6)
}

/// The structure is whole sectors, and its update sequence array has an entry
/// for each and lies in the first, before the sector's last two bytes.
pub open spec fn fixup_shape(b: Seq<u8>, bps: int) -> bool {
    &&& bps >= 2
    &&& b.len() >= 8
    &&& b.len() >= bps
    &&& b.len() % (bps as nat) == 0
    &&& usa_count(b) == b.len() / (bps as nat) + 1
    &&& 8 <= usa_offset(b)
    &&& usa_offset(b) + 2 * usa_count(b) <= bps - 2
}

/// The structure begins with the letters of its kind.
pub open spec fn has_magic(b: Seq<u8>, magic: Seq<u8>) -> bool {
    b.len() >= 4 && b[0] == magic[0] && b[1] == magic[1] && b[2] == magic[2] && b[3] == magic[3]
}

/// Sector `s` ends with the update sequence number.
pub open spec fn sector_sealed(b: Seq<u8>, bps: int, s: int) -> bool {
    bytes::le16(b, s * bps + bps - 2) == bytes::le16(b, usa_offset(b))
}

/// The first sector from `s` on that does not end with the number.
pub open spec fn first_torn(b: Seq<u8>, bps: int, s: int) -> Option<int>
    decreases b.len() / (bps as nat) - s,
{
    if s < 0 || s >= b.len() / (bps as nat) {
        None
    } else if !sector_sealed(b, bps, s) {
        Some(s)
    } else {
        first_torn(b, bps, s + 1)
    }
}

/// `b` with the last two bytes of every sector taken from the array.
pub open spec fn unsealed(b: Seq<u8>, bps: int) -> Seq<u8> {
    Seq::new(
        b.len(),
        |i: int|
            if i % bps >= bps - 2 {
                b[usa_offset(b) + 2 * (i / bps + 1) + (i % bps - (bps - 2))]
            } else {
                b[i]
            },
    )
}

/// The number that follows `n`. Zero is not one.
pub open spec fn next_number(n: int) -> int {
    if n >= 0xFFFF {
        1
    } else {
        n + 1
    }
}

/// `b` with the last two bytes of every sector kept in the array, and the next
/// number in their place.
pub open spec fn sealed(b: Seq<u8>, bps: int) -> Seq<u8> {
    let usa = usa_offset(b);
    let number = bytes::bytes16(next_number(bytes::le16(b, usa)));
    Seq::new(
        b.len(),
        |i: int|
            if i % bps >= bps - 2 {
                number[i % bps - (bps - 2)]
            } else if usa <= i < usa + 2 {
                number[i - usa]
            } else if usa + 2 <= i < usa + 2 * usa_count(b) {
                b[(i - usa) / 2 * bps - 2 + (i - usa) % 2]
            } else {
                b[i]
            },
    )
}

/// What the fixup of a structure that was read gives.
pub open spec fn fixed_on_read(b: Seq<u8>, bps: int, magic: Seq<u8>) -> Result<
    Seq<u8>,
    Seq<char>,
> {
    if !has_magic(b, magic) {
        Err("the record does not begin with its magic"@)
    } else if !fixup_shape(b, bps) {
        Err("the update sequence array does not fit the record"@)
    } else {
        match first_torn(b, bps, 0) {
            Some(s) => Err(
                "sector "@ + text::dec(s as nat)
                    + " of the record does not end with the update sequence number"@,
            ),
            None => Ok(unsealed(b, bps)),
        }
    }
}

/// What the fixup of a structure that is to be written gives.
pub open spec fn fixed_on_write(b: Seq<u8>, bps: int, magic: Seq<u8>) -> Result<
    Seq<u8>,
    Seq<char>,
> {
    if !has_magic(b, magic) {
        Err("the record does not begin with its magic"@)
    } else if !fixup_shape(b, bps) {
        Err("the update sequence array does not fit the record"@)
    } else {
        Ok(sealed(b, bps))
    }
}

/// Byte `r` of sector `s`.
proof fn lemma_in_sector(bps: int, s: int, r: int)
    requires
        0 < bps,
        0 <= s,
        0 <= r < bps,
    ensures
        (s * bps + r) / bps == s,
        (s * bps + r) % bps == r,
        0 <= s * bps,
        (s + 1) * bps == s * bps + bps,
{
    assert(0 <= s * bps) by (nonlinear_arith)
        requires
            0 < bps,
            0 <= s,
    ;
    assert((s + 1) * bps == s * bps + bps) by (nonlinear_arith);
    vstd::arithmetic::div_mod::lemma_fundamental_div_mod_converse(s * bps + r, bps, s, r);
}

/// A whole number of sectors ends where the last one does.
proof fn lemma_sectors(len: int, bps: int)
    requires
        0 < bps,
        0 <= len,
        len % bps == 0,
    ensures
        len == (len / bps) * bps,
        0 <= len / bps,
{
    vstd::arithmetic::div_mod::lemma_fundamental_div_mod(len, bps);
    assert(bps * (len / bps) == (len / bps) * bps) by (nonlinear_arith);
    vstd::arithmetic::div_mod::lemma_div_pos_is_pos(len, bps);
}

/// Sectors follow one another.
proof fn lemma_sector_before(bps: int, s: int, t: int)
    requires
        0 < bps,
        0 <= s < t,
    ensures
        s * bps + bps <= t * bps,
{
    assert(s * bps + bps <= t * bps) by (nonlinear_arith)
        requires
            0 < bps,
            0 <= s < t,
    ;
}

fn begins_with(buf: &[u8], magic: &[u8; 4]) -> (yes: bool)
    ensures
        yes == has_magic(buf@, magic@),
{
    buf.len() >= 4 && buf[0] == magic[0] && buf[1] == magic[1] && buf[2] == magic[2] && buf[3]
        == magic[3]
}

fn has_fixup_shape(buf: &[u8], bps: usize) -> (yes: bool)
    requires
        bps <= 0xFFFF,
    ensures
        yes == fixup_shape(buf@, bps as int),
{
    let n: usize = buf.len();
    if bps < 2 || n < 8 || n < bps || n % bps != 0 {
        return false;
    }
    let usa: usize = get_u16(buf, 4) as usize;
    let count: usize = get_u16(buf, 6) as usize;
    count >= 1 && count - 1 == n / bps && usa >= 8 && usa + 2 * count <= bps - 2
}

/// The first sector that does not end with the update sequence number.
fn find_torn(buf: &[u8], bps: usize) -> (torn: Option<usize>)
    requires
        fixup_shape(buf@, bps as int),
    ensures
        match torn {
            Some(s) => first_torn(buf@, bps as int, 0) == Some(s as int),
            None => first_torn(buf@, bps as int, 0) is None,
        },
{
    let n: usize = buf.len();
    let count: usize = n / bps;
    let number: u16 = get_u16(buf, get_u16(buf, 4) as usize);
    let mut s: usize = 0;
    let mut at: usize = 0;
    proof {
        lemma_sectors(n as int, bps as int);
        assert(0 * bps == 0) by (nonlinear_arith);
    }
    while s < count
        invariant
            fixup_shape(buf@, bps as int),
            n == buf.len(),
            count == n / bps,
            n == count * bps,
            number == bytes::le16(buf@, usa_offset(buf@)),
            s <= count,
            at == s * bps,
            first_torn(buf@, bps as int, s as int) == first_torn(buf@, bps as int, 0),
        decreases count - s,
    {
        proof {
            lemma_sector_before(bps as int, s as int, count as int);
            lemma_in_sector(bps as int, s as int, 0);
        }
        if get_u16(buf, at + bps - 2) != number {
            return Some(s);
        }
        s = s + 1;
        at = at + bps;
    }
    None
}

/// `unsealed`, for the first `s` sectors.
spec fn unsealed_to(b: Seq<u8>, bps: int, s: int) -> Seq<u8> {
    Seq::new(b.len(), |i: int| if i < s * bps { unsealed(b, bps)[i] } else { b[i] })
}

/// Puts the two bytes that the array keeps for each sector back at its end.
fn unseal(buf: &mut [u8], bps: usize)
    requires
        fixup_shape(old(buf)@, bps as int),
    ensures
        final(buf)@ == unsealed(old(buf)@, bps as int),
{
    let n: usize = buf.len();
    let count: usize = n / bps;
    let usa: usize = get_u16(buf, 4) as usize;
    let ghost b = buf@;
    let mut s: usize = 0;
    let mut at: usize = 0;
    proof {
        lemma_sectors(n as int, bps as int);
        assert(0 * bps == 0) by (nonlinear_arith);
        assert(buf@ =~= unsealed_to(b, bps as int, 0));
    }
    while s < count
        invariant
            b == old(buf)@,
            fixup_shape(b, bps as int),
            n == b.len(),
            n <= usize::MAX,
            count == n / bps,
            n == count * bps,
            usa == usa_offset(b),
            s <= count,
            at == s * bps,
            buf@ == unsealed_to(b, bps as int, s as int),
        decreases count - s,
    {
        proof {
            lemma_sector_before(bps as int, s as int, count as int);
            lemma_in_sector(bps as int, s as int, 0);
        }
        let low: u8 = buf[usa + 2 * (s + 1)];
        let high: u8 = buf[usa + 2 * (s + 1) + 1];
        proof {
            lemma_array_kept(b, bps as int, s as int, usa + 2 * (s + 1));
            lemma_array_kept(b, bps as int, s as int, usa + 2 * (s + 1) + 1);
        }
        buf[at + bps - 2] = low;
        buf[at + bps - 1] = high;
        proof {
            lemma_unsealed_step(b, buf@, bps as int, s as int, low, high);
        }
        s = s + 1;
        at = at + bps;
    }
    assert(buf@ =~= unsealed(b, bps as int));
}

/// The array is not at the end of a sector, so it reads the same at every step.
proof fn lemma_array_kept(b: Seq<u8>, bps: int, s: int, k: int)
    requires
        fixup_shape(b, bps),
        0 <= s,
        usa_offset(b) <= k < usa_offset(b) + 2 * usa_count(b),
    ensures
        unsealed_to(b, bps, s)[k] == b[k],
{
    assert(0 * bps == 0) by (nonlinear_arith);
    lemma_in_sector(bps, 0, k);
}

proof fn lemma_unsealed_step(b: Seq<u8>, now: Seq<u8>, bps: int, s: int, low: u8, high: u8)
    requires
        fixup_shape(b, bps),
        0 <= s < b.len() as int / bps,
        b.len() == (b.len() as int / bps) * bps,
        low == b[usa_offset(b) + 2 * (s + 1)],
        high == b[usa_offset(b) + 2 * (s + 1) + 1],
        now == unsealed_to(b, bps, s).update(s * bps + bps - 2, low).update(
            s * bps + bps - 1,
            high,
        ),
    ensures
        now == unsealed_to(b, bps, s + 1),
{
    let want = unsealed_to(b, bps, s + 1);
    lemma_in_sector(bps, s, 0);
    lemma_sector_before(bps, s, b.len() as int / bps);
    assert forall|i: int| 0 <= i < b.len() implies #[trigger] now[i] == want[i] by {
        if s * bps <= i < s * bps + bps {
            lemma_in_sector(bps, s, i - s * bps);
        }
    }
    assert(now =~= want);
}

/// Restores the bytes that the fixup displaced in a structure that was read,
/// after checking that every sector of it was written together.
pub fn apply_fixup_on_read_magic(buf: &mut [u8], bytes_per_sector: u16, magic: &[u8; 4]) -> (res:
    Result<(), String>)
    ensures
        match (res, fixed_on_read(old(buf)@, bytes_per_sector as int, magic@)) {
            (Ok(_), Ok(w)) => final(buf)@ == w,
            (Err(m), Err(w)) => m@ == w && final(buf)@ == old(buf)@,
            _ => false,
        },
{
    if !begins_with(buf, magic) {
        return Err("the record does not begin with its magic".to_owned());
    }
    if !has_fixup_shape(buf, bytes_per_sector as usize) {
        return Err("the update sequence array does not fit the record".to_owned());
    }
    if let Some(s) = find_torn(buf, bytes_per_sector as usize) {
        return Err(
            "sector ".to_owned().concat(decimal(s as u64).as_str()).concat(
                " of the record does not end with the update sequence number",
            ),
        );
    }
    unseal(buf, bytes_per_sector as usize);
    Ok(())
}

/// `sealed`, for the first `s` sectors and their entries of the array.
spec fn sealed_to(b: Seq<u8>, bps: int, s: int) -> Seq<u8> {
    let usa = usa_offset(b);
    Seq::new(
        b.len(),
        |i: int|
            if usa + 2 * (s + 1) <= i < usa + 2 * usa_count(b) {
                b[i]
            } else if i < s * bps || usa <= i < usa + 2 * usa_count(b) {
                sealed(b, bps)[i]
            } else {
                b[i]
            },
    )
}

/// Keeps the last two bytes of each sector in the array, and puts the next
/// number in their place.
fn seal(buf: &mut [u8], bps: usize)
    requires
        fixup_shape(old(buf)@, bps as int),
    ensures
        final(buf)@ == sealed(old(buf)@, bps as int),
{
    let n: usize = buf.len();
    let count: usize = n / bps;
    let usa: usize = get_u16(buf, 4) as usize;
    let ghost b = buf@;
    let old_number: u16 = get_u16(buf, usa);
    let number: u16 = if old_number == 0xFFFF {
        1
    } else {
        old_number + 1
    };
    put_u16(buf, usa, number);
    let mut s: usize = 0;
    let mut at: usize = 0;
    proof {
        lemma_sectors(n as int, bps as int);
        assert(0 * bps == 0) by (nonlinear_arith);
        lemma_in_sector(bps as int, 0, usa as int);
        lemma_in_sector(bps as int, 0, usa + 1);
        assert(buf@ =~= sealed_to(b, bps as int, 0));
    }
    while s < count
        invariant
            b == old(buf)@,
            fixup_shape(b, bps as int),
            n == b.len(),
            n <= usize::MAX,
            count == n / bps,
            n == count * bps,
            usa == usa_offset(b),
            number == next_number(bytes::le16(b, usa as int)),
            s <= count,
            at == s * bps,
            buf@ == sealed_to(b, bps as int, s as int),
        decreases count - s,
    {
        proof {
            lemma_sector_before(bps as int, s as int, count as int);
            lemma_in_sector(bps as int, s as int, 0);
        }
        let low: u8 = buf[at + bps - 2];
        let high: u8 = buf[at + bps - 1];
        buf[usa + 2 * (s + 1)] = low;
        buf[usa + 2 * (s + 1) + 1] = high;
        put_u16(buf, at + bps - 2, number);
        proof {
            lemma_sealed_step(b, buf@, bps as int, s as int, low, high, number as int);
        }
        s = s + 1;
        at = at + bps;
    }
    proof {
        assert(buf@ =~= sealed(b, bps as int));
    }
}

proof fn lemma_sealed_step(
    b: Seq<u8>,
    now: Seq<u8>,
    bps: int,
    s: int,
    low: u8,
    high: u8,
    number: int,
)
    requires
        fixup_shape(b, bps),
        0 <= s < b.len() as int / bps,
        b.len() == (b.len() as int / bps) * bps,
        number == next_number(bytes::le16(b, usa_offset(b))),
        low == sealed_to(b, bps, s)[s * bps + bps - 2],
        high == sealed_to(b, bps, s)[s * bps + bps - 1],
        now == bytes::patch(
            sealed_to(b, bps, s).update(usa_offset(b) + 2 * (s + 1), low).update(
                usa_offset(b) + 2 * (s + 1) + 1,
                high,
            ),
            s * bps + bps - 2,
            bytes::bytes16(number),
        ),
    ensures
        now == sealed_to(b, bps, s + 1),
{
    let usa = usa_offset(b);
    let want = sealed_to(b, bps, s + 1);
    lemma_in_sector(bps, s, 0);
    lemma_in_sector(bps, 0, usa);
    lemma_sector_before(bps, s, b.len() as int / bps);
    assert(0 * bps == 0) by (nonlinear_arith);
    lemma_in_sector(bps, 0, usa + 2 * (s + 1));
    lemma_in_sector(bps, 0, usa + 2 * (s + 1) + 1);
    assert(low == b[s * bps + bps - 2]);
    assert(high == b[s * bps + bps - 1]);
    let k = usa + 2 * (s + 1);
    assert((k - usa) / 2 == s + 1 && (k - usa) % 2 == 0);
    assert((k + 1 - usa) / 2 == s + 1 && (k + 1 - usa) % 2 == 1);
    assert forall|i: int| 0 <= i < b.len() implies #[trigger] now[i] == want[i] by {
        if s * bps <= i < s * bps + bps {
            lemma_in_sector(bps, s, i - s * bps);
        }
        if 0 <= i < bps {
            lemma_in_sector(bps, 0, i);
        }
    }
    assert(now =~= want);
}

/// Displaces the last two bytes of every sector of a structure that is to be
/// written, so that a reader sees whether all of it was.
pub fn apply_fixup_on_write_magic(buf: &mut [u8], bytes_per_sector: u16, magic: &[u8; 4]) -> (res:
    Result<(), String>)
    ensures
        match (res, fixed_on_write(old(buf)@, bytes_per_sector as int, magic@)) {
            (Ok(_), Ok(w)) => final(buf)@ == w,
            (Err(m), Err(w)) => m@ == w && final(buf)@ == old(buf)@,
            _ => false,
        },
{
    if !begins_with(buf, magic) {
        return Err("the record does not begin with its magic".to_owned());
    }
    if !has_fixup_shape(buf, bytes_per_sector as usize) {
        return Err("the update sequence array does not fit the record".to_owned());
    }
    seal(buf, bytes_per_sector as usize);
    Ok(())
}

/// What a fixup for writing displaced, one for reading restores: every byte
/// but those of the update sequence array reads as it was.
pub proof fn lemma_fixup_round_trip(b: Seq<u8>, bps: int, magic: Seq<u8>)
    requires
        fixed_on_write(b, bps, magic) is Ok,
        magic.len() == 4,
    ensures
        ({
            let w = fixed_on_write(b, bps, magic)->Ok_0;
            match fixed_on_read(w, bps, magic) {
                Ok(r) => {
                    &&& r.len() == b.len()
                    &&& forall|i: int|
                        0 <= i < b.len() && !(usa_offset(b) <= i < usa_offset(b) + 2 * usa_count(b))
                            ==> #[trigger] r[i] == b[i]
                },
                Err(_) => false,
            }
        }),
{
    let w = sealed(b, bps);
    let usa = usa_offset(b);
    let sectors = b.len() as int / bps;
    lemma_sectors(b.len() as int, bps);
    assert(0 * bps == 0) by (nonlinear_arith);
    assert forall|i: int| 0 <= i < 8 implies #[trigger] w[i] == b[i] by {
        lemma_in_sector(bps, 0, i);
    }
    assert(usa_offset(w) == usa);
    assert(usa_count(w) == usa_count(b));
    lemma_in_sector(bps, 0, usa);
    lemma_in_sector(bps, 0, usa + 1);
    lemma_none_torn(b, bps, 0);
    let r = unsealed(w, bps);
    assert forall|i: int|
        0 <= i < b.len() && !(usa <= i < usa + 2 * usa_count(b)) implies #[trigger] r[i] == b[i] by {
        if i % bps >= bps - 2 {
            let s = i / bps;
            vstd::arithmetic::div_mod::lemma_fundamental_div_mod(i, bps);
            assert(bps * s == s * bps) by (nonlinear_arith);
            assert(0 <= s < sectors) by {
                vstd::arithmetic::div_mod::lemma_div_pos_is_pos(i, bps);
                if s >= sectors {
                    if s > sectors {
                        lemma_sector_before(bps, sectors, s);
                    }
                }
            }
            let k = usa + 2 * (s + 1) + (i % bps - (bps - 2));
            lemma_in_sector(bps, 0, k);
            assert(r[i] == w[k]);
            assert((k - usa) / 2 == s + 1);
            assert((k - usa) % 2 == i % bps - (bps - 2));
            lemma_in_sector(bps, s, 0);
        }
    }
}

proof fn lemma_none_torn(b: Seq<u8>, bps: int, s: int)
    requires
        fixup_shape(b, bps),
        0 <= s <= b.len() as int / bps,
        b.len() == (b.len() as int / bps) * bps,
        usa_offset(sealed(b, bps)) == usa_offset(b),
    ensures
        first_torn(sealed(b, bps), bps, s) is None,
    decreases b.len() as int / bps - s,
{
    let w = sealed(b, bps);
    let usa = usa_offset(b);
    if s < b.len() as int / bps {
        lemma_none_torn(b, bps, s + 1);
        lemma_in_sector(bps, s, bps - 2);
        lemma_in_sector(bps, s, bps - 1);
        lemma_sector_before(bps, s, b.len() as int / bps);
        assert(0 * bps == 0) by (nonlinear_arith);
        lemma_in_sector(bps, 0, usa);
        lemma_in_sector(bps, 0, usa + 1);
        assert(sector_sealed(w, bps, s));
    }
}

/// The fixup of a file record that was read.
pub fn apply_fixup_on_read(buf: &mut [u8], bytes_per_sector: u16) -> (res: Result<(), String>)
    ensures
        match (res, fixed_on_read(old(buf)@, bytes_per_sector as int, file_magic())) {
            (Ok(_), Ok(w)) => final(buf)@ == w,
            (Err(m), Err(w)) => m@ == w && final(buf)@ == old(buf)@,
            _ => false,
        },
{
    let magic: [u8; 4] = [0x46, 0x49, 0x4C, 0x45];
    assert(magic@ =~= file_magic());
    apply_fixup_on_read_magic(buf, bytes_per_sector, &magic)
}

/// The fixup of a file record that is to be written.
pub fn apply_fixup_on_write(buf: &mut [u8], bytes_per_sector: u16) -> (res: Result<(), String>)
    ensures
        match (res, fixed_on_write(old(buf)@, bytes_per_sector as int, file_magic())) {
            (Ok(_), Ok(w)) => final(buf)@ == w,
            (Err(m), Err(w)) => m@ == w && final(buf)@ == old(buf)@,
            _ => false,
        },
{
    let magic: [u8; 4] = [0x46, 0x49, 0x4C, 0x45];
    assert(magic@ =~= file_magic());
    apply_fixup_on_write_magic(buf, bytes_per_sector, &magic)
}

/// `FILE`.
pub open spec fn file_magic() -> Seq<u8> {
    seq![0x46u8, 0x49, 0x4C, 0x45]
}

} // verus!
