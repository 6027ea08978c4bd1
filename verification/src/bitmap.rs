//! The cluster allocator: the volume's `$Bitmap`.
//!
//! The data of `$Bitmap` has one bit for each cluster. Bit `k % 8` of byte
//! `k / 8` is 1 where cluster `k` is allocated and 0 where it is free. The bytes
//! are in clusters of their own, which a run list gives.
//!
//! Allocation is first-fit: there is no preference among free runs but their
//! place.

use vstd::prelude::*;

use crate::attr_io;
use crate::attr_io::{find_attribute, AttrType};
use crate::block_io;
use crate::block_io::{BlockIo, Faults};
use crate::bytes::copy_range;
use crate::chunks;
use crate::chunks::{read_chunks, write_chunks, MappedChunk};
use crate::data_runs;
use crate::data_runs::{decode_runs, find_run, DataRun};
use crate::mft_io;
use crate::mft_io::{cluster_span, div_up, saturating_product, BootParams};
use crate::text;
use crate::text::decimal;

verus! {

/// The file record of `$Bitmap`.
pub const BITMAP_RECORD_NUMBER: u64 = 6;

/// Where the bitmap is, and what of the volume it must not give away.
pub struct BitmapLocation {
    pub params: BootParams,
    pub runs: Vec<DataRun>,
    /// The number of bits that stand for a cluster.
    pub total_bits: u64,
    /// The length of the data in bytes.
    pub value_length: u64,
    /// The clusters that `$MFT` takes up, where it is in one piece. Zero where
    /// that is not known.
    pub mft_clusters: u64,
    /// Cluster ranges, the end left out, of the volume's own structures.
    pub other_protected: Vec<(u64, u64)>,
}

/// Bit `bit` of `byte` is 1.
pub open spec fn is_set(byte: u8, bit: int) -> bool {
    (byte >> (bit as u8)) & 1u8 != 0
}

/// `byte` with bit `bit` as given.
pub open spec fn with_bit(byte: u8, bit: int, on: bool) -> u8 {
    if on {
        byte | (1u8 << (bit as u8))
    } else {
        byte & !(1u8 << (bit as u8))
    }
}

proof fn lemma_with_bit(byte: u8, bit: int, on: bool)
    requires
        0 <= bit < 8,
    ensures
        forall|other: int|
            0 <= other < 8 ==> #[trigger] is_set(with_bit(byte, bit, on), other) == if other == bit {
                on
            } else {
                is_set(byte, other)
            },
{
    let b = bit as u8;
    assert forall|other: int| 0 <= other < 8 implies #[trigger] is_set(
        with_bit(byte, bit, on),
        other,
    ) == if other == bit {
        on
    } else {
        is_set(byte, other)
    } by {
        let o = other as u8;
        assert(((byte | (1u8 << b)) >> o) & 1u8 != 0 <==> (o == b || (byte >> o) & 1u8 != 0))
            by (bit_vector)
            requires
                b < 8,
                o < 8,
        ;
        assert(((byte & !(1u8 << b)) >> o) & 1u8 != 0 <==> (o != b && (byte >> o) & 1u8 != 0))
            by (bit_vector)
            requires
                b < 8,
                o < 8,
        ;
    }
}

/// Bit `bit` of `byte` is 1.
pub fn bit_is_set(byte: u8, bit: u8) -> (b: bool)
    requires
        bit < 8,
    ensures
        b == is_set(byte, bit as int),
{
    (byte >> bit) & 1 != 0
}

/// Sets bit `bit` of the byte at `idx`.
pub fn set_bit(bytes: &mut [u8], idx: usize, bit: u8)
    requires
        idx < old(bytes)@.len(),
        bit < 8,
    ensures
        final(bytes)@ == old(bytes)@.update(
            idx as int,
            with_bit(old(bytes)@[idx as int], bit as int, true),
        ),
{
    bytes[idx] = bytes[idx] | (1u8 << bit);
}

/// Clears bit `bit` of the byte at `idx`.
pub fn clear_bit(bytes: &mut [u8], idx: usize, bit: u8)
    requires
        idx < old(bytes)@.len(),
        bit < 8,
    ensures
        final(bytes)@ == old(bytes)@.update(
            idx as int,
            with_bit(old(bytes)@[idx as int], bit as int, false),
        ),
{
    bytes[idx] = bytes[idx] & !(1u8 << bit);
}

/// `[lcn, end)` and the range have a cluster in common.
pub open spec fn overlaps(range: (u64, u64), lcn: u64, end: u64) -> bool {
    lcn < range.1 && range.0 < end
}

/// The sum, or the greatest `u64`.
pub open spec fn saturated_sum(a: u64, b: u64) -> u64 {
    if a + b > u64::MAX {
        u64::MAX
    } else {
        (a + b) as u64
    }
}

impl BitmapLocation {
    /// The runs follow one another from the bitmap's first cluster on, and a
    /// cluster has a size.
    pub open spec fn well_formed(&self) -> bool {
        &&& self.params.cluster_size > 0
        &&& data_runs::contiguous_from(self.runs@, 0)
    }

    /// `[lcn, lcn + n)` takes in the boot sector, a cluster of `$MFT` or one of
    /// another of the volume's structures.
    pub open spec fn protects(&self, lcn: u64, n: u64) -> bool {
        let end = saturated_sum(lcn, n);
        ||| lcn == 0
        ||| self.mft_clusters != 0 && overlaps(
            (self.params.mft_lcn, saturated_sum(self.params.mft_lcn, self.mft_clusters)),
            lcn,
            end,
        )
        ||| exists|i: int|
            0 <= i < self.other_protected@.len() && #[trigger] overlaps(
                self.other_protected@[i],
                lcn,
                end,
            )
    }

    /// Whether `[lcn, lcn + n)` covers clusters that the volume needs.
    ///
    /// A file's own run list says which clusters it gives back, and a damaged
    /// one may name any. Where the size of `$MFT` is not known, that alone
    /// refuses nothing: its runs are among the protected ranges.
    pub fn covers_the_volumes_own(&self, lcn: u64, n: u64) -> (b: bool)
        ensures
            b == self.protects(lcn, n),
    {
        let end: u64 = lcn.saturating_add(n);
        if lcn == 0 {
            return true;
        }
        if self.mft_clusters != 0 {
            let mft_end: u64 = self.params.mft_lcn.saturating_add(self.mft_clusters);
            if lcn < mft_end && self.params.mft_lcn < end {
                return true;
            }
        }
        let mut i: usize = 0;
        while i < self.other_protected.len()
            invariant
                i <= self.other_protected@.len(),
                end == saturated_sum(lcn, n),
                forall|k: int|
                    0 <= k < i ==> !#[trigger] overlaps(self.other_protected@[k], lcn, end),
            decreases self.other_protected.len() - i,
        {
            let range: (u64, u64) = self.other_protected[i];
            if lcn < range.1 && range.0 < end {
                assert(overlaps(self.other_protected@[i as int], lcn, end));
                return true;
            }
            i = i + 1;
        }
        false
    }
}

/// The pieces of the bitmap's bytes from `at` to `end`, the first of which
/// begins at `cursor` of a buffer.
pub open spec fn mapped_from(bm: &BitmapLocation, at: int, end: int, cursor: int) -> Result<
    Seq<MappedChunk>,
    Seq<char>,
>
    decreases end - at,
{
    let cs = bm.params.cluster_size as int;
    let vcn = at / cs;
    if at >= end {
        Ok(Seq::empty())
    } else {
        match data_runs::covering_run(bm.runs@, vcn) {
            None => Err("VCN "@ + text::dec(vcn as nat) + " not mapped in $Bitmap"@),
            Some(run) => match run.lcn {
                None => Err("VCN "@ + text::dec(vcn as nat) + " is in a sparse $Bitmap run"@),
                Some(lcn) => {
                    let run_end = (run.starting_vcn + run.length) * cs;
                    let n = if run_end < end {
                        run_end - at
                    } else {
                        end - at
                    };
                    if run_end > u64::MAX {
                        Err(
                            "$Bitmap run at VCN "@ + text::dec(run.starting_vcn as nat)
                                + " ends past the address space"@,
                        )
                    } else if n <= 0 {
                        Err(
                            "$Bitmap run at VCN "@ + text::dec(run.starting_vcn as nat)
                                + " ends at or before "@ + text::dec(at as nat),
                        )
                    } else {
                        match mft_io::span(
                            bm.params,
                            lcn,
                            (vcn - run.starting_vcn) as u64,
                            (at % cs) as u64,
                            n as u64,
                            u64::MAX,
                        ) {
                            Err(m) => Err(m),
                            Ok(offset) => after(
                                seq![
                                    MappedChunk {
                                        disk_offset: offset as u64,
                                        cursor: cursor as usize,
                                        len: n as usize,
                                    },
                                ],
                                mapped_from(bm, at + n, end, cursor + n),
                            ),
                        }
                    }
                },
            },
        }
    }
}

/// `want`, behind the pieces that are already there.
pub open spec fn after(had: Seq<MappedChunk>, want: Result<Seq<MappedChunk>, Seq<char>>) -> Result<
    Seq<MappedChunk>,
    Seq<char>,
> {
    match want {
        Ok(w) => Ok(had + w),
        Err(e) => Err(e),
    }
}

/// The pieces of `len` bytes of the bitmap from `start` on.
pub open spec fn mapped(bm: &BitmapLocation, start: int, len: int) -> Result<
    Seq<MappedChunk>,
    Seq<char>,
> {
    mapped_from(bm, start, start + len, 0)
}

/// Where byte `b` of the bitmap is on disk.
pub open spec fn place(bm: &BitmapLocation, b: int) -> int {
    chunks::place(bm.runs@, bm.params.cluster_size as int, b)
}

/// What `mapped_from` gives covers its range, piece by piece.
#[verifier::rlimit(40)]
proof fn lemma_mapped_from(bm: &BitmapLocation, from: int, at: int, end: int)
    requires
        bm.well_formed(),
        0 <= from <= at <= end <= u64::MAX,
        end - from <= usize::MAX,
    ensures
        mapped_from(bm, at, end, at - from) matches Ok(ch) ==> {
            &&& chunks::end_of(ch, ch.len() as int) == end - at
            &&& chunks::placed(bm.runs@, bm.params.cluster_size as int, from, ch)
            &&& forall|k: int|
                0 <= k < ch.len() ==> {
                    &&& (#[trigger] ch[k]).len > 0
                    &&& ch[k].cursor == at - from + chunks::end_of(ch, k)
                    &&& ch[k].disk_offset + ch[k].len <= u64::MAX
                }
        },
    decreases end - at,
{
    let cs = bm.params.cluster_size as int;
    let vcn = at / cs;
    if at < end && mapped_from(bm, at, end, at - from) is Ok {
        let ch = mapped_from(bm, at, end, at - from)->Ok_0;
        let run = data_runs::covering_run(bm.runs@, vcn)->0;
        data_runs::lemma_covering_run_covers(bm.runs@, vcn);
        let lcn = run.lcn->0;
        let run_end = (run.starting_vcn + run.length) * cs;
        let n = if run_end < end {
            run_end - at
        } else {
            end - at
        };
        vstd::arithmetic::div_mod::lemma_fundamental_div_mod(at, cs);
        vstd::arithmetic::div_mod::lemma_div_pos_is_pos(at, cs);
        vstd::arithmetic::div_mod::lemma_mod_bound(at, cs);
        let offset = mft_io::span(
            bm.params,
            lcn,
            (vcn - run.starting_vcn) as u64,
            (at % cs) as u64,
            n as u64,
            u64::MAX,
        )->Ok_0;
        let rest = mapped_from(bm, at + n, end, at - from + n)->Ok_0;
        let first = MappedChunk {
            disk_offset: offset as u64,
            cursor: (at - from) as usize,
            len: n as usize,
        };
        lemma_mapped_from(bm, from, at + n, end);
        assert(ch =~= seq![first] + rest);
        chunks::lemma_end_of_cons(first, rest, rest.len() as int);
        assert(offset == mft_io::cluster_offset(
            bm.params,
            lcn as int,
            vcn - run.starting_vcn,
            at % cs,
        ));
        assert(0 <= offset) by (nonlinear_arith)
            requires
                offset == (lcn + (vcn - run.starting_vcn)) * cs + at % cs,
                vcn >= run.starting_vcn,
                lcn >= 0,
                cs > 0,
                at % cs >= 0,
        ;
        assert forall|k: int| 0 <= k < ch.len() implies {
            &&& (#[trigger] ch[k]).len > 0
            &&& ch[k].cursor == at - from + chunks::end_of(ch, k)
            &&& ch[k].disk_offset + ch[k].len <= u64::MAX
        } by {
            if k > 0 {
                assert(ch[k] == rest[k - 1]);
                chunks::lemma_end_of_cons(first, rest, k - 1);
            }
        }
        assert forall|k: int| 0 <= k < ch.len() implies #[trigger] chunks::placed_at(
            bm.runs@,
            cs,
            from,
            ch,
            k,
        ) by {
            if k > 0 {
                assert(ch[k] == rest[k - 1]);
                assert(chunks::placed_at(bm.runs@, cs, from, rest, k - 1));
            } else {
                assert forall|j: int|
                    ch[0].cursor <= j < ch[0].cursor + ch[0].len implies #[trigger] chunks::place(
                    bm.runs@,
                    cs,
                    from + j,
                ) == ch[0].disk_offset + (j - ch[0].cursor) by {
                    chunks::lemma_place_in_run(bm.runs@, cs, run, at, from + j - at);
                }
            }
        }
    }
}

/// The pieces of a range of the bitmap make it up, and each byte is at its
/// place.
pub proof fn lemma_mapped(bm: &BitmapLocation, start: int, len: int)
    requires
        bm.well_formed(),
        0 <= start,
        0 <= len <= usize::MAX,
        start + len <= u64::MAX,
    ensures
        mapped(bm, start, len) matches Ok(ch) ==> {
            &&& chunks::laid_out(ch, len)
            &&& chunks::placed(bm.runs@, bm.params.cluster_size as int, start, ch)
        },
{
    lemma_mapped_from(bm, start, start, start + len);
    if mapped(bm, start, len) is Ok {
        let ch = mapped(bm, start, len)->Ok_0;
        assert forall|k: int| 0 <= k < ch.len() implies #[trigger] chunks::laid_at(ch, k) by {
            assert(ch[k].len > 0);
        }
    }
}

/// The pieces of `len` bytes of the bitmap from `start_byte` on. The whole range
/// is resolved before anything is read or written.
fn map_bitmap_range(bm: &BitmapLocation, start_byte: u64, len: u64) -> (res: Result<
    Vec<MappedChunk>,
    String,
>)
    requires
        bm.well_formed(),
        start_byte + len <= u64::MAX,
        len <= usize::MAX,
    ensures
        match (res, mapped(bm, start_byte as int, len as int)) {
            (Ok(v), Ok(w)) => {
                &&& v@ == w
                &&& chunks::laid_out(v@, len as int)
                &&& chunks::placed(
                    bm.runs@,
                    bm.params.cluster_size as int,
                    start_byte as int,
                    v@,
                )
            },
            (Err(m), Err(w)) => m@ == w,
            _ => false,
        },
{
    let cs: u64 = bm.params.cluster_size;
    let end: u64 = start_byte + len;
    let mut out: Vec<MappedChunk> = Vec::new();
    let mut cursor: usize = 0;
    let mut at: u64 = start_byte;
    proof {
        lemma_mapped(bm, start_byte as int, len as int);
        let want = mapped(bm, start_byte as int, len as int);
        assert(want is Ok ==> out@ + want->Ok_0 =~= want->Ok_0);
    }
    while at < end
        invariant
            bm.well_formed(),
            cs == bm.params.cluster_size,
            end == start_byte + len,
            len <= usize::MAX,
            start_byte <= at <= end,
            cursor == at - start_byte,
            after(out@, mapped_from(bm, at as int, end as int, cursor as int)) == mapped(
                bm,
                start_byte as int,
                len as int,
            ),
        decreases end - at,
    {
        let vcn: u64 = at / cs;
        let in_cluster: u64 = at % cs;
        let run: DataRun = match find_run(bm.runs.as_slice(), vcn) {
            Some(run) => run,
            None => {
                return Err(
                    "VCN ".to_owned().concat(decimal(vcn).as_str()).concat(
                        " not mapped in $Bitmap",
                    ),
                );
            },
        };
        let lcn: u64 = match run.lcn {
            Some(lcn) => lcn,
            None => {
                return Err(
                    "VCN ".to_owned().concat(decimal(vcn).as_str()).concat(
                        " is in a sparse $Bitmap run",
                    ),
                );
            },
        };
        let run_end: u64 = match (run.starting_vcn + run.length).checked_mul(cs) {
            Some(v) => v,
            None => {
                return Err(
                    "$Bitmap run at VCN ".to_owned().concat(
                        decimal(run.starting_vcn).as_str(),
                    ).concat(" ends past the address space"),
                );
            },
        };
        if run_end <= at {
            return Err(
                "$Bitmap run at VCN ".to_owned().concat(
                    decimal(run.starting_vcn).as_str(),
                ).concat(" ends at or before ").concat(decimal(at).as_str()),
            );
        }
        let n: u64 = if run_end < end {
            run_end - at
        } else {
            end - at
        };
        let disk_offset: u64 = match cluster_span(
            &bm.params,
            lcn,
            vcn - run.starting_vcn,
            in_cluster,
            n,
            u64::MAX,
        ) {
            Ok(v) => v,
            Err(m) => {
                return Err(m);
            },
        };
        let ghost had = out@;
        let ghost rest = mapped_from(bm, at + n, end as int, cursor + n);
        out.push(MappedChunk { disk_offset, cursor, len: n as usize });
        proof {
            let piece = MappedChunk { disk_offset, cursor, len: n as usize };
            assert(rest is Ok ==> had + (seq![piece] + rest->Ok_0) =~= out@ + rest->Ok_0);
        }
        cursor = cursor + n as usize;
        at = at + n;
    }
    proof {
        assert(out@ + Seq::<MappedChunk>::empty() =~= out@);
    }
    Ok(out)
}

/// Byte `b` of the bitmap.
pub open spec fn stored(c: spec_fn(int) -> u8, bm: &BitmapLocation, b: int) -> u8 {
    c(place(bm, b))
}

/// `n` bytes of the bitmap from `start` on.
pub open spec fn stored_bytes(
    c: spec_fn(int) -> u8,
    bm: &BitmapLocation,
    start: int,
    n: int,
) -> Seq<u8> {
    Seq::new(n as nat, |j: int| stored(c, bm, start + j))
}

/// A read failed, and `m` is what the device said of it.
pub open spec fn read_failed(
    m: Seq<char>,
    faults_before: Option<Faults>,
    faults_now: Option<Faults>,
) -> bool {
    &&& block_io::read_fault(faults_before, faults_now)
    &&& exists|e: Seq<char>| m == #[trigger] ("read bitmap: "@ + e)
}

/// Reads `len` bytes of the bitmap from `start_byte` on.
fn read_bitmap_bytes_io<T: BlockIo + ?Sized>(
    io: &mut T,
    bm: &BitmapLocation,
    start_byte: u64,
    len: u64,
) -> (res: Result<Vec<u8>, String>)
    requires
        bm.well_formed(),
        start_byte + len <= u64::MAX,
        len <= usize::MAX,
    ensures
        (*final(io)).byte_count() == (*old(io)).byte_count(),
        block_io::same_bytes(&*final(io), &*old(io)),
        match (res, mapped(bm, start_byte as int, len as int)) {
            (Ok(v), Ok(ch)) => {
                &&& (*final(io)).faults() == (*old(io)).faults()
                &&& v@ == stored_bytes(
                    block_io::contents(&*old(io)),
                    bm,
                    start_byte as int,
                    len as int,
                )
                &&& chunks::gathered(block_io::contents(&*old(io)), ch, v@)
            },
            (Err(m), Ok(_)) => {
                &&& len > 0
                &&& read_failed(m@, (*old(io)).faults(), (*final(io)).faults())
            },
            (Err(m), Err(w)) => m@ == w && (*final(io)).faults() == (*old(io)).faults(),
            _ => false,
        },
{
    let list: Vec<MappedChunk> = match map_bitmap_range(bm, start_byte, len) {
        Ok(v) => v,
        Err(m) => {
            return Err(m);
        },
    };
    match read_chunks(io, list.as_slice(), len as usize, "read bitmap: ") {
        Ok(v) => {
            proof {
                lemma_gathered_is_stored(
                    block_io::contents(&*old(io)),
                    bm,
                    start_byte as int,
                    list@,
                    v@,
                );
            }
            Ok(v)
        },
        Err(m) => Err(m),
    }
}

/// What is gathered from the places of a range is what the bitmap holds there.
proof fn lemma_gathered_is_stored(
    c: spec_fn(int) -> u8,
    bm: &BitmapLocation,
    start: int,
    ch: Seq<MappedChunk>,
    v: Seq<u8>,
)
    requires
        chunks::laid_out(ch, v.len() as int),
        chunks::placed(bm.runs@, bm.params.cluster_size as int, start, ch),
    ensures
        chunks::gathered(c, ch, v) <==> v == stored_bytes(c, bm, start, v.len() as int),
{
    if chunks::gathered(c, ch, v) {
        assert forall|j: int| 0 <= j < v.len() implies v[j] == stored(c, bm, start + j) by {
            let k = chunks::lemma_piece_of(ch, v.len() as int, j);
            assert(chunks::gathered_at(c, ch, v, k));
            assert(chunks::placed_at(bm.runs@, bm.params.cluster_size as int, start, ch, k));
        }
        assert(v =~= stored_bytes(c, bm, start, v.len() as int));
    }
    if v == stored_bytes(c, bm, start, v.len() as int) {
        assert forall|k: int| 0 <= k < ch.len() implies #[trigger] chunks::gathered_at(
            c,
            ch,
            v,
            k,
        ) by {
            assert(chunks::laid_at(ch, k));
            chunks::lemma_end_grows(ch, k, ch.len() as int);
            assert(chunks::placed_at(bm.runs@, bm.params.cluster_size as int, start, ch, k));
            assert forall|j: int| ch[k].cursor <= j < ch[k].cursor + ch[k].len implies #[trigger] v[j] == c(
                ch[k].disk_offset + (j - ch[k].cursor),
            ) by {
                assert(v[j] == stored(c, bm, start + j));
            }
        }
    }
}

/// What a write of `data` over the pieces did, where `previous` was to be put
/// back if it failed. Where no write failed, all pieces were written, and what is
/// left to fail is the flush. Whether the flush behind a rollback failed is not
/// looked at.
pub open spec fn write_came_out(
    before: spec_fn(int) -> u8,
    now: spec_fn(int) -> u8,
    ch: Seq<MappedChunk>,
    data: Seq<u8>,
    previous: Seq<u8>,
    faults_before: Option<Faults>,
    faults_now: Option<Faults>,
    res: Result<(), String>,
) -> bool {
    match res {
        Ok(_) => all_written(before, now, ch, data) && faults_now == faults_before,
        Err(m) => {
            ||| all_written(before, now, ch, data) && faults_now == block_io::more_faults(
                faults_before,
                0,
                0,
                1,
            )
            ||| writes_failed(faults_before, faults_now, 1) && exists|e: Seq<char>, k: int|
                0 <= k < ch.len() && m@ == #[trigger] ("write bitmap: "@ + e)
                    && #[trigger] rolled_back(before, now, ch, previous, k)
            ||| writes_failed(faults_before, faults_now, 2) && exists|e: Seq<char>, r: Seq<char>|
                m@ == #[trigger] rollback_failed(e, r) && only_these_changed(before, now, ch)
        },
    }
}

/// So many writes failed, and perhaps the flush behind them.
pub open spec fn writes_failed(
    faults_before: Option<Faults>,
    faults_now: Option<Faults>,
    n: int,
) -> bool {
    ||| faults_now == block_io::more_faults(faults_before, 0, n, 0)
    ||| faults_now == block_io::more_faults(faults_before, 0, n, 1)
}

/// All pieces of `data` were written.
pub open spec fn all_written(
    before: spec_fn(int) -> u8,
    now: spec_fn(int) -> u8,
    ch: Seq<MappedChunk>,
    data: Seq<u8>,
) -> bool {
    forall|p: int| #[trigger] now(p) == chunks::scattered(before, ch, data, ch.len() as int, p)
}

/// Piece `k` could not be written, and those before it hold `previous`.
pub open spec fn rolled_back(
    before: spec_fn(int) -> u8,
    now: spec_fn(int) -> u8,
    ch: Seq<MappedChunk>,
    previous: Seq<u8>,
    k: int,
) -> bool {
    forall|p: int|
        !chunks::in_chunk(ch[k], p) ==> #[trigger] now(p) == chunks::scattered(
            before,
            ch,
            previous,
            k,
            p,
        )
}

/// Nothing but the pieces changed.
pub open spec fn only_these_changed(
    before: spec_fn(int) -> u8,
    now: spec_fn(int) -> u8,
    ch: Seq<MappedChunk>,
) -> bool {
    forall|p: int|
        !chunks::in_chunks(ch, ch.len() as int, p) ==> #[trigger] now(p) == before(p)
}

/// What is said where a write failed and could not be undone either.
pub open spec fn rollback_failed(e: Seq<char>, r: Seq<char>) -> Seq<char> {
    "write bitmap: "@ + e + "; and rolling the earlier chunks back failed too ("@ + r
        + "): $Bitmap now records an allocation state that does not match the records it describes — run chkdsk"@
}

/// Writes `data` over the bitmap from `start_byte` on, all of it or nothing.
///
/// `previous` is what those bytes hold. Where one of several writes fails, the
/// pieces that were written before it are rewritten from it. If that fails too,
/// the error says so. The range is resolved first: where part of it is nowhere
/// on disk, nothing is written.
pub fn write_bitmap_bytes_io<T: BlockIo + ?Sized>(
    io: &mut T,
    bm: &BitmapLocation,
    start_byte: u64,
    data: &[u8],
    previous: &[u8],
) -> (res: Result<(), String>)
    requires
        bm.well_formed(),
        data.len() == previous.len(),
        start_byte + data.len() <= u64::MAX,
    ensures
        (*final(io)).byte_count() == (*old(io)).byte_count(),
        match mapped(bm, start_byte as int, data@.len() as int) {
            Err(w) => {
                &&& res matches Err(m) && m@ == w
                &&& block_io::same_bytes(&*final(io), &*old(io))
                &&& (*final(io)).faults() == (*old(io)).faults()
            },
            Ok(ch) => write_came_out(
                block_io::contents(&*old(io)),
                block_io::contents(&*final(io)),
                ch,
                data@,
                previous@,
                (*old(io)).faults(),
                (*final(io)).faults(),
                res,
            ),
        },
{
    let list: Vec<MappedChunk> = match map_bitmap_range(bm, start_byte, data.len() as u64) {
        Ok(v) => v,
        Err(m) => {
            return Err(m);
        },
    };
    let ghost before = block_io::contents(&*old(io));
    match write_chunks(io, list.as_slice(), list.len(), data) {
        Ok(_) => {
            let done = io.sync();
            assert(all_written(before, block_io::contents(&*io), list@, data@));
            done
        },
        Err((k, e)) => {
            let ghost torn = block_io::contents(&*io);
            let again = write_chunks(io, list.as_slice(), k, previous);
            let ghost left = block_io::contents(&*io);
            let _ = io.sync();
            let ghost now = block_io::contents(&*io);
            assert(forall|p: int| #[trigger] now(p) == left(p));
            match again {
                Ok(_) => {
                    proof {
                        lemma_rolled_back(before, torn, now, list@, data@, previous@, k as int);
                        assert(("write bitmap: "@ + e@) == ("write bitmap: "@ + e@));
                    }
                    Err("write bitmap: ".to_owned().concat(e.as_str()))
                },
                Err((j, r)) => {
                    proof {
                        lemma_only_these_changed(
                            before,
                            torn,
                            now,
                            list@,
                            data@,
                            previous@,
                            k as int,
                            j as int,
                        );
                        assert(rollback_failed(e@, r@) == rollback_failed(e@, r@));
                    }
                    Err(
                        "write bitmap: ".to_owned().concat(e.as_str()).concat(
                            "; and rolling the earlier chunks back failed too (",
                        ).concat(r.as_str()).concat(
                            "): $Bitmap now records an allocation state that does not match the records it describes — run chkdsk",
                        ),
                    )
                },
            }
        },
    }
}

proof fn lemma_rolled_back(
    before: spec_fn(int) -> u8,
    torn: spec_fn(int) -> u8,
    now: spec_fn(int) -> u8,
    ch: Seq<MappedChunk>,
    data: Seq<u8>,
    previous: Seq<u8>,
    k: int,
)
    requires
        0 <= k < ch.len(),
        forall|p: int|
            !chunks::in_chunk(ch[k], p) ==> #[trigger] torn(p) == chunks::scattered(
                before,
                ch,
                data,
                k,
                p,
            ),
        forall|p: int| #[trigger] now(p) == chunks::scattered(torn, ch, previous, k, p),
    ensures
        rolled_back(before, now, ch, previous, k),
{
    assert forall|p: int| !chunks::in_chunk(ch[k], p) implies #[trigger] now(p)
        == chunks::scattered(before, ch, previous, k, p) by {
        assert(torn(p) == chunks::scattered(before, ch, data, k, p));
        if !chunks::in_chunks(ch, k, p) {
            chunks::lemma_scatter_keeps(before, ch, data, k, p);
        }
        chunks::lemma_scatter_same(before, torn, ch, previous, k, p);
    }
}

proof fn lemma_only_these_changed(
    before: spec_fn(int) -> u8,
    torn: spec_fn(int) -> u8,
    now: spec_fn(int) -> u8,
    ch: Seq<MappedChunk>,
    data: Seq<u8>,
    previous: Seq<u8>,
    k: int,
    j: int,
)
    requires
        0 <= j < k < ch.len(),
        forall|p: int|
            !chunks::in_chunk(ch[k], p) ==> #[trigger] torn(p) == chunks::scattered(
                before,
                ch,
                data,
                k,
                p,
            ),
        forall|p: int|
            !chunks::in_chunk(ch[j], p) ==> #[trigger] now(p) == chunks::scattered(
                torn,
                ch,
                previous,
                j,
                p,
            ),
    ensures
        only_these_changed(before, now, ch),
{
    assert forall|p: int| !chunks::in_chunks(ch, ch.len() as int, p) implies #[trigger] now(p)
        == before(p) by {
        chunks::lemma_not_in_fewer(ch, ch.len() as int, k, p);
        chunks::lemma_not_in_fewer(ch, ch.len() as int, k + 1, p);
        chunks::lemma_not_in_fewer(ch, ch.len() as int, j, p);
        chunks::lemma_not_in_fewer(ch, ch.len() as int, j + 1, p);
        assert(torn(p) == chunks::scattered(before, ch, data, k, p));
        chunks::lemma_scatter_keeps(before, ch, data, k, p);
        chunks::lemma_scatter_keeps(torn, ch, previous, j, p);
    }
}

/// Where a write fails and what the bytes held is put back, the device holds
/// what it held, but for the piece that could not be written.
pub proof fn lemma_a_failed_write_is_undone(
    before: spec_fn(int) -> u8,
    now: spec_fn(int) -> u8,
    ch: Seq<MappedChunk>,
    previous: Seq<u8>,
    k: int,
)
    requires
        0 <= k < ch.len(),
        chunks::laid_out(ch, previous.len() as int),
        chunks::gathered(before, ch, previous),
        rolled_back(before, now, ch, previous, k),
    ensures
        forall|p: int| !chunks::in_chunk(ch[k], p) ==> #[trigger] now(p) == before(p),
{
    assert forall|p: int| !chunks::in_chunk(ch[k], p) implies #[trigger] now(p) == before(p) by {
        chunks::lemma_scatter_restores(before, before, ch, previous, k, p);
    }
}

/// Bit `k` of the bytes.
pub open spec fn bit_of(b: Seq<u8>, k: int) -> bool {
    is_set(b[k / 8], k % 8)
}

/// `b` with the `n` bits from `from` on as given.
pub open spec fn with_bits(b: Seq<u8>, from: int, n: int, on: bool) -> Seq<u8>
    decreases n,
{
    if n <= 0 {
        b
    } else {
        let most = with_bits(b, from, n - 1, on);
        let k = from + n - 1;
        most.update(k / 8, with_bit(most[k / 8], k % 8, on))
    }
}

/// `with_bits` changes its bits and no others.
pub proof fn lemma_with_bits(b: Seq<u8>, from: int, n: int, on: bool)
    requires
        0 <= from,
        0 <= n,
        from + n <= 8 * b.len(),
    ensures
        with_bits(b, from, n, on).len() == b.len(),
        forall|k: int|
            0 <= k < 8 * b.len() ==> #[trigger] bit_of(with_bits(b, from, n, on), k) == if from <= k
                < from + n {
                on
            } else {
                bit_of(b, k)
            },
    decreases n,
{
    if n > 0 {
        lemma_with_bits(b, from, n - 1, on);
        let most = with_bits(b, from, n - 1, on);
        let m = from + n - 1;
        lemma_with_bit(most[m / 8], m % 8, on);
        assert forall|k: int| 0 <= k < 8 * b.len() implies #[trigger] bit_of(
            with_bits(b, from, n, on),
            k,
        ) == if from <= k < from + n {
            on
        } else {
            bit_of(b, k)
        } by {
            assert(bit_of(most, k) == if from <= k < from + n - 1 {
                on
            } else {
                bit_of(b, k)
            });
            if k / 8 == m / 8 {
                assert(0 <= k % 8 < 8);
                assert(k % 8 == m % 8 ==> k == m);
            }
        }
    }
}

/// The first of the `n` bits from `from` on, from the `i`th, that is `on`.
pub open spec fn first_with(b: Seq<u8>, from: int, i: int, n: int, on: bool) -> Option<int>
    decreases n - i,
{
    if i >= n {
        None
    } else if bit_of(b, from + i) == on {
        Some(i)
    } else {
        first_with(b, from, i + 1, n, on)
    }
}

/// The number of bytes that hold the `n` bits from bit `lcn` on.
pub open spec fn byte_span(lcn: int, n: int) -> int {
    mft_io::ceil_div(lcn + n, 8) - lcn / 8
}

/// What making the bits of `[lcn, lcn + n)` all `set` does. Where the device
/// counts what fails, and nothing did, it fails only for a reason of its own.
pub open spec fn mutation_came_out(
    bm: &BitmapLocation,
    before: spec_fn(int) -> u8,
    now: spec_fn(int) -> u8,
    lcn: int,
    n: int,
    set: bool,
    faults_before: Option<Faults>,
    faults_now: Option<Faults>,
    res: Result<(), String>,
) -> bool {
    let first = lcn / 8;
    let count = byte_span(lcn, n);
    let old_bytes = stored_bytes(before, bm, first, count);
    let same_bytes = forall|p: int| #[trigger] now(p) == before(p);
    let unchanged = same_bytes && faults_now == faults_before;
    if n == 0 {
        res is Ok && unchanged
    } else if lcn + n > bm.total_bits {
        &&& unchanged
        &&& res matches Err(m) && m@ == "range ["@ + text::dec(lcn as nat) + ", +"@ + text::dec(
            n as nat,
        ) + ") is not inside the "@ + text::dec(bm.total_bits as nat) + " bits $Bitmap describes"@
    } else {
        match mapped(bm, first, count) {
            Err(w) => unchanged && (res matches Err(m) && m@ == w),
            Ok(ch) => {
                ||| same_bytes && (res matches Err(m) && read_failed(m@, faults_before, faults_now))
                ||| match first_with(old_bytes, lcn % 8, 0, n, set) {
                    Some(i) => {
                        &&& unchanged
                        &&& res matches Err(m) && m@ == "cluster "@ + text::dec((lcn + i) as nat)
                            + if set {
                            " already allocated"@
                        } else {
                            " already free"@
                        }
                    },
                    None => write_came_out(
                        before,
                        now,
                        ch,
                        with_bits(old_bytes, lcn % 8, n, set),
                        old_bytes,
                        faults_before,
                        faults_now,
                        res,
                    ),
                }
            },
        }
    }
}

/// The bytes with the `n` bits from `from` on, which are those of the clusters
/// from `lcn` on, made `set`, where none of them is.
pub fn flipped(bytes: &[u8], from: u64, n: u64, set: bool, lcn: u64) -> (res: Result<
    Vec<u8>,
    String,
>)
    requires
        from + n <= 8 * bytes@.len(),
        from + n <= u64::MAX,
        lcn + n <= u64::MAX,
    ensures
        match first_with(bytes@, from as int, 0, n as int, set) {
            Some(i) => res matches Err(m) && m@ == "cluster "@ + text::dec((lcn + i) as nat) + if set {
                " already allocated"@
            } else {
                " already free"@
            },
            None => res matches Ok(v) && v@ == with_bits(bytes@, from as int, n as int, set),
        },
{
    let size: usize = bytes.len();
    let mut out: Vec<u8> = copy_range(bytes, 0, size);
    assert(out@ =~= bytes@);
    let mut i: u64 = 0;
    while i < n
        invariant
            size == bytes@.len(),
            from + n <= 8 * size,
            from + n <= u64::MAX,
            lcn + n <= u64::MAX,
            i <= n,
            out@ == with_bits(bytes@, from as int, i as int, set),
            out@.len() == size,
            first_with(bytes@, from as int, i as int, n as int, set) == first_with(
                bytes@,
                from as int,
                0,
                n as int,
                set,
            ),
        decreases n - i,
    {
        let bit: u64 = from + i;
        assert(bit / 8 < size);
        let byte_idx: usize = (bit / 8) as usize;
        let bit_in_byte: u8 = (bit % 8) as u8;
        proof {
            lemma_with_bits(bytes@, from as int, i as int, set);
            assert(bit_of(out@, bit as int) == bit_of(bytes@, bit as int));
        }
        let ghost most = out@;
        let cur: bool = bit_is_set(out[byte_idx], bit_in_byte);
        if set && cur {
            return Err(
                "cluster ".to_owned().concat(decimal(lcn + i).as_str()).concat(
                    " already allocated",
                ),
            );
        }
        if !set && !cur {
            return Err(
                "cluster ".to_owned().concat(decimal(lcn + i).as_str()).concat(" already free"),
            );
        }
        if set {
            set_bit(out.as_mut_slice(), byte_idx, bit_in_byte);
        } else {
            clear_bit(out.as_mut_slice(), byte_idx, bit_in_byte);
        }
        proof {
            lemma_with_bits(bytes@, from as int, i + 1, set);
            assert(out@ == most.update(
                bit as int / 8,
                with_bit(most[bit as int / 8], bit as int % 8, set),
            ));
        }
        i = i + 1;
    }
    Ok(out)
}

/// Makes the bits of `[lcn, lcn + n)` all `set`, where none of them is. Every
/// bit is looked at before anything is written.
pub fn mutate_bits_io<T: BlockIo + ?Sized>(
    io: &mut T,
    bm: &BitmapLocation,
    lcn: u64,
    n: u64,
    set: bool,
) -> (res: Result<(), String>)
    requires
        bm.well_formed(),
        byte_span(lcn as int, n as int) <= usize::MAX,
    ensures
        (*final(io)).byte_count() == (*old(io)).byte_count(),
        mutation_came_out(
            bm,
            block_io::contents(&*old(io)),
            block_io::contents(&*final(io)),
            lcn as int,
            n as int,
            set,
            (*old(io)).faults(),
            (*final(io)).faults(),
            res,
        ),
{
    if n == 0 {
        return Ok(());
    }
    if n > u64::MAX - lcn || lcn + n > bm.total_bits {
        return Err(
            "range [".to_owned().concat(decimal(lcn).as_str()).concat(", +").concat(
                decimal(n).as_str(),
            ).concat(") is not inside the ").concat(decimal(bm.total_bits).as_str()).concat(
                " bits $Bitmap describes",
            ),
        );
    }
    let first_byte: u64 = lcn / 8;
    let count: u64 = div_up(lcn + n, 8) - first_byte;
    let ghost before = block_io::contents(&*old(io));
    let ghost old_bytes = stored_bytes(before, bm, first_byte as int, count as int);
    let previous: Vec<u8> = match read_bitmap_bytes_io(io, bm, first_byte, count) {
        Ok(v) => v,
        Err(m) => {
            return Err(m);
        },
    };
    let bytes: Vec<u8> = match flipped(previous.as_slice(), lcn % 8, n, set, lcn) {
        Ok(v) => v,
        Err(m) => {
            return Err(m);
        },
    };
    proof {
        lemma_with_bits(old_bytes, lcn as int % 8, n as int, set);
    }
    let ghost now = block_io::contents(&*io);
    let res = write_bitmap_bytes_io(io, bm, first_byte, bytes.as_slice(), previous.as_slice());
    proof {
        assert(before =~= now);
    }
    res
}

/// Marks `[lcn, lcn + n)` allocated. Fails where one of them is already.
pub fn allocate_io<T: BlockIo + ?Sized>(
    io: &mut T,
    bm: &BitmapLocation,
    lcn: u64,
    n: u64,
) -> (res: Result<(), String>)
    requires
        bm.well_formed(),
        byte_span(lcn as int, n as int) <= usize::MAX,
    ensures
        (*final(io)).byte_count() == (*old(io)).byte_count(),
        mutation_came_out(
            bm,
            block_io::contents(&*old(io)),
            block_io::contents(&*final(io)),
            lcn as int,
            n as int,
            true,
            (*old(io)).faults(),
            (*final(io)).faults(),
            res,
        ),
{
    mutate_bits_io(io, bm, lcn, n, true)
}

/// Marks `[lcn, lcn + n)` free. Fails where one of them is already, or where one
/// is the volume's own.
pub fn free_io<T: BlockIo + ?Sized>(
    io: &mut T,
    bm: &BitmapLocation,
    lcn: u64,
    n: u64,
) -> (res: Result<(), String>)
    requires
        bm.well_formed(),
        byte_span(lcn as int, n as int) <= usize::MAX,
    ensures
        (*final(io)).byte_count() == (*old(io)).byte_count(),
        if bm.protects(lcn, n) {
            &&& block_io::same_bytes(&*final(io), &*old(io))
            &&& (*final(io)).faults() == (*old(io)).faults()
            &&& res matches Err(m) && m@ == "clusters ["@ + text::dec(lcn as nat) + ", +"@
                + text::dec(n as nat)
                + ") hold the volume's own structures and are not a file's to free"@
        } else {
            mutation_came_out(
                bm,
                block_io::contents(&*old(io)),
                block_io::contents(&*final(io)),
                lcn as int,
                n as int,
                false,
                (*old(io)).faults(),
                (*final(io)).faults(),
                res,
            )
        },
{
    if bm.covers_the_volumes_own(lcn, n) {
        return Err(
            "clusters [".to_owned().concat(decimal(lcn).as_str()).concat(", +").concat(
                decimal(n).as_str(),
            ).concat(") hold the volume's own structures and are not a file's to free"),
        );
    }
    mutate_bits_io(io, bm, lcn, n, false)
}

/// Cluster `k` is allocated, as the bitmap on the device says.
pub open spec fn allocated(c: spec_fn(int) -> u8, bm: &BitmapLocation, k: int) -> bool {
    is_set(stored(c, bm, k / 8), k % 8)
}

/// Whether cluster `lcn` is marked allocated.
pub fn is_allocated_io<T: BlockIo + ?Sized>(io: &mut T, bm: &BitmapLocation, lcn: u64) -> (res:
    Result<bool, String>)
    requires
        bm.well_formed(),
    ensures
        (*final(io)).byte_count() == (*old(io)).byte_count(),
        block_io::same_bytes(&*final(io), &*old(io)),
        if lcn >= bm.total_bits {
            &&& (*final(io)).faults() == (*old(io)).faults()
            &&& res matches Err(m) && m@ == "LCN "@ + text::dec(lcn as nat)
                + " out of range (total_bits "@ + text::dec(bm.total_bits as nat) + ")"@
        } else {
            match (res, mapped(bm, lcn as int / 8, 1)) {
                (Ok(b), Ok(_)) => {
                    &&& b == allocated(block_io::contents(&*old(io)), bm, lcn as int)
                    &&& (*final(io)).faults() == (*old(io)).faults()
                },
                (Err(m), Ok(_)) => read_failed(m@, (*old(io)).faults(), (*final(io)).faults()),
                (Err(m), Err(w)) => m@ == w && (*final(io)).faults() == (*old(io)).faults(),
                _ => false,
            }
        },
{
    if lcn >= bm.total_bits {
        return Err(
            "LCN ".to_owned().concat(decimal(lcn).as_str()).concat(
                " out of range (total_bits ",
            ).concat(decimal(bm.total_bits).as_str()).concat(")"),
        );
    }
    match read_bitmap_bytes_io(io, bm, lcn / 8, 1) {
        Ok(bytes) => Ok(bit_is_set(bytes[0], (lcn % 8) as u8)),
        Err(m) => Err(m),
    }
}

/// Reads the bytes that hold the bits of `[start, start + nbits)`.
pub fn read_range_io<T: BlockIo + ?Sized>(
    io: &mut T,
    bm: &BitmapLocation,
    start: u64,
    nbits: u64,
) -> (res: Result<Vec<u8>, String>)
    requires
        bm.well_formed(),
        start + nbits <= u64::MAX,
        byte_span(start as int, nbits as int) <= usize::MAX,
    ensures
        (*final(io)).byte_count() == (*old(io)).byte_count(),
        block_io::same_bytes(&*final(io), &*old(io)),
        if start + nbits > bm.total_bits {
            &&& (*final(io)).faults() == (*old(io)).faults()
            &&& res matches Err(m) && m@ == "range ["@ + text::dec(start as nat) + ".."@ + text::dec(
                (start + nbits) as nat,
            ) + "] exceeds total_bits "@ + text::dec(bm.total_bits as nat)
        } else {
            let first = start as int / 8;
            let count = byte_span(start as int, nbits as int);
            match (res, mapped(bm, first, count)) {
                (Ok(v), Ok(_)) => {
                    &&& v@ == stored_bytes(block_io::contents(&*old(io)), bm, first, count)
                    &&& (*final(io)).faults() == (*old(io)).faults()
                },
                (Err(m), Ok(_)) => {
                    &&& count > 0
                    &&& read_failed(m@, (*old(io)).faults(), (*final(io)).faults())
                },
                (Err(m), Err(w)) => m@ == w && (*final(io)).faults() == (*old(io)).faults(),
                _ => false,
            }
        },
{
    if start + nbits > bm.total_bits {
        return Err(
            "range [".to_owned().concat(decimal(start).as_str()).concat("..").concat(
                decimal(start + nbits).as_str(),
            ).concat("] exceeds total_bits ").concat(decimal(bm.total_bits).as_str()),
        );
    }
    let start_byte: u64 = start / 8;
    let end_byte: u64 = div_up(start + nbits, 8);
    read_bitmap_bytes_io(io, bm, start_byte, end_byte - start_byte)
}

/// The bits that are read at a time.
pub const SCAN_BITS: u64 = 65536;

/// The bytes that are read at a time when all are counted.
pub const COUNT_BYTES: u64 = 65536;

/// Clusters `[s, s + n)` are all free.
pub open spec fn all_free(c: spec_fn(int) -> u8, bm: &BitmapLocation, s: int, n: int) -> bool {
    forall|k: int| s <= k < s + n ==> !#[trigger] allocated(c, bm, k)
}

/// The lowest start of `n` free clusters within `[begin, finish)`.
pub open spec fn is_first_free(
    c: spec_fn(int) -> u8,
    bm: &BitmapLocation,
    n: int,
    begin: int,
    finish: int,
    s: int,
) -> bool {
    &&& begin <= s
    &&& s + n <= finish
    &&& all_free(c, bm, s, n)
    &&& forall|t: int| begin <= t < s ==> !#[trigger] all_free(c, bm, t, n)
}

/// There are no `n` free clusters within `[begin, finish)`.
pub open spec fn none_free(
    c: spec_fn(int) -> u8,
    bm: &BitmapLocation,
    n: int,
    begin: int,
    finish: int,
) -> bool {
    forall|t: int| begin <= t && t + n <= finish ==> !#[trigger] all_free(c, bm, t, n)
}

/// Where a search of the bits of `[lcn, finish)`, which takes some at a time,
/// first comes to bytes that are nowhere on disk, and why they are not.
pub open spec fn unmapped_bits(bm: &BitmapLocation, lcn: int, finish: int) -> Option<
    (int, Seq<char>),
>
    decreases finish - lcn,
{
    let end = smaller(lcn + SCAN_BITS, finish);
    if lcn >= finish {
        None
    } else {
        match mapped(bm, lcn / 8, byte_span(lcn, end - lcn)) {
            Err(m) => Some((lcn, m)),
            Ok(_) => unmapped_bits(bm, end, finish),
        }
    }
}

/// A search of `[begin, finish)` for `n` free clusters stopped for the reason
/// `m`: a read failed, or there were none up to bytes that are nowhere on disk.
pub open spec fn scan_stopped(
    c: spec_fn(int) -> u8,
    bm: &BitmapLocation,
    n: int,
    begin: int,
    finish: int,
    faults_before: Option<Faults>,
    faults_now: Option<Faults>,
    m: Seq<char>,
) -> bool {
    &&& begin < finish
    &&& {
        ||| read_failed(m, faults_before, faults_now)
        ||| faults_now == faults_before && (unmapped_bits(bm, begin, finish) matches Some((at, w))
            && w == m && none_free(c, bm, n, begin, at))
    }
}

/// The clear bits in a row that end before bit `from + k` of the bytes, where
/// `had` clear ones stand before bit `from`.
pub open spec fn clear_before(b: Seq<u8>, from: int, k: int, had: int) -> int
    decreases k,
{
    if k <= 0 {
        had
    } else if bit_of(b, from + k - 1) {
        0
    } else {
        clear_before(b, from, k - 1, had) + 1
    }
}

/// How a search of some bytes for clear bits in a row ends.
pub enum ScanStep {
    /// There are enough of them before this bit.
    Found(u64),
    /// There are not, and so many stand at the end.
    Running(u64),
}

/// Searches `bits` bits of the bytes, from bit `from` on, for `n` clear ones in a
/// row, of which `had` stand before them.
pub fn scan_bytes(bytes: &[u8], from: u64, bits: u64, had: u64, n: u64) -> (step: ScanStep)
    requires
        from + bits <= 8 * bytes@.len(),
        from + bits <= u64::MAX,
        had < n,
    ensures
        match step {
            ScanStep::Found(i) => {
                &&& 0 < i <= bits
                &&& clear_before(bytes@, from as int, i as int, had as int) == n
                &&& forall|j: int|
                    0 <= j < i ==> #[trigger] clear_before(bytes@, from as int, j, had as int) < n
            },
            ScanStep::Running(l) => {
                &&& l == clear_before(bytes@, from as int, bits as int, had as int)
                &&& forall|j: int|
                    0 <= j <= bits ==> #[trigger] clear_before(bytes@, from as int, j, had as int)
                        < n
            },
        },
{
    let size: usize = bytes.len();
    let mut len: u64 = had;
    let mut i: u64 = 0;
    while i < bits
        invariant
            size == bytes@.len(),
            from + bits <= 8 * size,
            from + bits <= u64::MAX,
            i <= bits,
            len < n,
            len == clear_before(bytes@, from as int, i as int, had as int),
            forall|j: int|
                0 <= j <= i ==> #[trigger] clear_before(bytes@, from as int, j, had as int) < n,
        decreases bits - i,
    {
        let bit: u64 = from + i;
        assert(bit / 8 < size);
        if bit_is_set(bytes[(bit / 8) as usize], (bit % 8) as u8) {
            len = 0;
        } else {
            len = len + 1;
        }
        i = i + 1;
        assert(len == clear_before(bytes@, from as int, i as int, had as int));
        if len >= n {
            return ScanStep::Found(i);
        }
    }
    ScanStep::Running(len)
}

/// The free clusters in a row that end before cluster `end` are `len`, of those
/// from `begin` on, and no `n` of them are in a row before it.
spec fn run_stands(
    c: spec_fn(int) -> u8,
    bm: &BitmapLocation,
    n: int,
    begin: int,
    end: int,
    len: int,
) -> bool {
    &&& 0 <= len
    &&& begin + len <= end
    &&& all_free(c, bm, end - len, len)
    &&& begin + len < end ==> allocated(c, bm, end - len - 1)
    &&& forall|t: int| begin <= t && t + n < end ==> !#[trigger] all_free(c, bm, t, n)
}

/// What is searched in the bytes of the bitmap is searched in the bitmap.
proof fn lemma_run_goes_on(
    c: spec_fn(int) -> u8,
    bm: &BitmapLocation,
    n: int,
    begin: int,
    lcn: int,
    had: int,
    count: int,
    k: int,
)
    requires
        n > 0,
        0 <= begin <= lcn,
        0 <= k,
        lcn % 8 + k <= 8 * count,
        had < n,
        run_stands(c, bm, n, begin, lcn, had),
        forall|j: int|
            0 <= j < k ==> #[trigger] clear_before(
                stored_bytes(c, bm, lcn / 8, count),
                lcn % 8,
                j,
                had,
            ) < n,
    ensures
        run_stands(
            c,
            bm,
            n,
            begin,
            lcn + k,
            clear_before(stored_bytes(c, bm, lcn / 8, count), lcn % 8, k, had),
        ),
    decreases k,
{
    let b = stored_bytes(c, bm, lcn / 8, count);
    if k > 0 {
        lemma_run_goes_on(c, bm, n, begin, lcn, had, count, k - 1);
        let was = clear_before(b, lcn % 8, k - 1, had);
        let p = lcn + k - 1;
        let j = lcn % 8 + k - 1;
        assert(p / 8 == lcn / 8 + j / 8 && p % 8 == j % 8);
        assert(bit_of(b, j) == allocated(c, bm, p));
        assert forall|t: int| begin <= t && t + n < lcn + k implies !#[trigger] all_free(
            c,
            bm,
            t,
            n,
        ) by {
            if t + n == p {
                assert(was < n);
                assert(allocated(c, bm, p - was - 1));
            }
        }
    }
}

/// Looks for the first `n` free clusters within `[begin, finish)`.
fn scan_for_run<T: BlockIo + ?Sized>(
    io: &mut T,
    bm: &BitmapLocation,
    n: u64,
    begin: u64,
    finish: u64,
) -> (res: Result<Option<u64>, String>)
    requires
        bm.well_formed(),
        n > 0,
        begin <= finish <= bm.total_bits,
    ensures
        (*final(io)).byte_count() == (*old(io)).byte_count(),
        block_io::same_bytes(&*final(io), &*old(io)),
        ({
            let c = block_io::contents(&*old(io));
            let holes = unmapped_bits(bm, begin as int, finish as int);
            match res {
                Ok(Some(s)) => {
                    &&& is_first_free(c, bm, n as int, begin as int, finish as int, s as int)
                    &&& holes matches Some((at, _)) ==> s + n <= at
                    &&& (*final(io)).faults() == (*old(io)).faults()
                },
                Ok(None) => {
                    &&& none_free(c, bm, n as int, begin as int, finish as int)
                    &&& holes is None
                    &&& (*final(io)).faults() == (*old(io)).faults()
                },
                Err(m) => scan_stopped(
                    c,
                    bm,
                    n as int,
                    begin as int,
                    finish as int,
                    (*old(io)).faults(),
                    (*final(io)).faults(),
                    m@,
                ),
            }
        }),
{
    let ghost c = block_io::contents(&*old(io));
    let mut run_len: u64 = 0;
    let mut lcn: u64 = begin;
    while lcn < finish
        invariant
            bm.well_formed(),
            n > 0,
            begin <= lcn <= finish <= bm.total_bits,
            c == block_io::contents(&*old(io)),
            (*io).byte_count() == (*old(io)).byte_count(),
            block_io::same_bytes(&*io, &*old(io)),
            (*io).faults() == (*old(io)).faults(),
            unmapped_bits(bm, lcn as int, finish as int) == unmapped_bits(
                bm,
                begin as int,
                finish as int,
            ),
            run_len < n,
            run_stands(c, bm, n as int, begin as int, lcn as int, run_len as int),
        decreases finish - lcn,
    {
        let step: u64 = if finish - lcn < SCAN_BITS {
            finish - lcn
        } else {
            SCAN_BITS
        };
        let first_byte: u64 = lcn / 8;
        let end_bit: u64 = lcn + step;
        let count: u64 = div_up(end_bit, 8) - first_byte;
        let ghost now = block_io::contents(&*io);
        proof {
            lemma_none_before(c, bm, n as int, begin as int, lcn as int, run_len as int);
        }
        let bytes: Vec<u8> = match read_bitmap_bytes_io(io, bm, first_byte, count) {
            Ok(v) => v,
            Err(m) => {
                return Err(m);
            },
        };
        proof {
            assert(now =~= c);
            lemma_holes_are_behind(bm, end_bit as int, finish as int);
        }
        match scan_bytes(bytes.as_slice(), lcn % 8, step, run_len, n) {
            ScanStep::Found(i) => {
                proof {
                    lemma_run_goes_on(
                        c,
                        bm,
                        n as int,
                        begin as int,
                        lcn as int,
                        run_len as int,
                        count as int,
                        i as int,
                    );
                    assert forall|t: int| begin <= t < lcn + i - n implies !#[trigger] all_free(
                        c,
                        bm,
                        t,
                        n as int,
                    ) by {}
                }
                return Ok(Some(lcn + i - n));
            },
            ScanStep::Running(len) => {
                proof {
                    lemma_run_goes_on(
                        c,
                        bm,
                        n as int,
                        begin as int,
                        lcn as int,
                        run_len as int,
                        count as int,
                        step as int,
                    );
                }
                run_len = len;
            },
        }
        lcn = end_bit;
    }
    proof {
        lemma_none_before(c, bm, n as int, begin as int, lcn as int, run_len as int);
    }
    Ok(None)
}

/// Where fewer than `n` free clusters in a row end before `end`, there are no `n`
/// before it at all.
proof fn lemma_none_before(
    c: spec_fn(int) -> u8,
    bm: &BitmapLocation,
    n: int,
    begin: int,
    end: int,
    len: int,
)
    requires
        n > 0,
        len < n,
        run_stands(c, bm, n, begin, end, len),
    ensures
        none_free(c, bm, n, begin, end),
{
    assert forall|t: int| begin <= t && t + n <= end implies !#[trigger] all_free(c, bm, t, n) by {
        if t + n == end {
            assert(allocated(c, bm, end - len - 1));
        }
    }
}

/// What is found nowhere on disk is not before the place from which one looks.
proof fn lemma_holes_are_behind(bm: &BitmapLocation, lcn: int, finish: int)
    ensures
        unmapped_bits(bm, lcn, finish) matches Some((at, _)) ==> lcn <= at < finish,
    decreases finish - lcn,
{
    if lcn < finish {
        lemma_holes_are_behind(bm, smaller(lcn + SCAN_BITS, finish), finish);
    }
}

/// The bytes of the bitmap in `[at, end)` are on disk where they are part of a
/// range that is.
proof fn lemma_piece_at(bm: &BitmapLocation, at: int, end: int, cursor: int, a: int)
    requires
        bm.well_formed(),
        0 <= at <= a < end <= u64::MAX,
        mapped_from(bm, at, end, cursor) is Ok,
    ensures
        ({
            let cs = bm.params.cluster_size as int;
            let run = data_runs::covering_run(bm.runs@, a / cs)->0;
            let run_end = (run.starting_vcn + run.length) * cs;
            let start = mft_io::cluster_offset(
                bm.params,
                run.lcn->0 as int,
                a / cs - run.starting_vcn,
                a % cs,
            );
            &&& data_runs::covering_run(bm.runs@, a / cs) is Some
            &&& run.lcn is Some
            &&& run.starting_vcn <= a / cs <= u64::MAX
            &&& a < run_end <= u64::MAX
            &&& start + smaller(run_end, end) - a <= mft_io::transfer_limit(
                bm.params,
                u64::MAX as int,
            )
        }),
    decreases end - at,
{
    let cs = bm.params.cluster_size as int;
    let vcn = at / cs;
    let run = data_runs::covering_run(bm.runs@, vcn)->0;
    let lcn = run.lcn->0 as int;
    let first = run.starting_vcn as int;
    let stop = first + run.length;
    let run_end = stop * cs;
    let n = if run_end < end {
        run_end - at
    } else {
        end - at
    };
    data_runs::lemma_covering_run_covers(bm.runs@, vcn);
    vstd::arithmetic::div_mod::lemma_fundamental_div_mod(at, cs);
    vstd::arithmetic::div_mod::lemma_mod_bound(at, cs);
    if a >= at + n {
        lemma_piece_at(bm, at + n, end, cursor + n, a);
    } else {
        let q = a / cs;
        vstd::arithmetic::div_mod::lemma_fundamental_div_mod(a, cs);
        vstd::arithmetic::div_mod::lemma_mod_bound(a, cs);
        vstd::arithmetic::div_mod::lemma_div_is_ordered(at, a, cs);
        assert(q < stop) by (nonlinear_arith)
            requires
                a == cs * q + a % cs,
                0 <= a % cs,
                a < stop * cs,
                cs > 0,
        ;
        data_runs::lemma_covering_run_is_the_only(bm.runs@, 0, vcn, q);
        let x = (lcn + (vcn - first)) * cs + at % cs;
        let y = (lcn + (q - first)) * cs + a % cs;
        assert(y - x == a - at) by (nonlinear_arith)
            requires
                a == cs * q + a % cs,
                at == cs * vcn + at % cs,
                x == (lcn + (vcn - first)) * cs + at % cs,
                y == (lcn + (q - first)) * cs + a % cs,
        ;
    }
}

/// Where a range of the bitmap is on disk, every part of it is.
proof fn lemma_mapped_part(
    bm: &BitmapLocation,
    at: int,
    end: int,
    cursor: int,
    a: int,
    b: int,
    other: int,
)
    requires
        bm.well_formed(),
        0 <= at <= a <= b <= end <= u64::MAX,
        mapped_from(bm, at, end, cursor) is Ok,
    ensures
        mapped_from(bm, a, b, other) is Ok,
    decreases b - a,
{
    if a < b {
        let cs = bm.params.cluster_size as int;
        lemma_piece_at(bm, at, end, cursor, a);
        vstd::arithmetic::div_mod::lemma_mod_bound(a, cs);
        let run = data_runs::covering_run(bm.runs@, a / cs)->0;
        let run_end = (run.starting_vcn + run.length) * cs;
        let n = if run_end < b {
            run_end - a
        } else {
            b - a
        };
        lemma_mapped_part(bm, at, end, cursor, a + n, b, other + n);
    }
}

/// Where all bytes of the bitmap that stand for clusters are on disk, no search
/// comes to any that are not.
pub proof fn lemma_mapped_has_no_holes(bm: &BitmapLocation, lcn: int, finish: int)
    requires
        bm.well_formed(),
        0 <= lcn,
        finish <= bm.total_bits,
        mapped(bm, 0, mft_io::ceil_div(bm.total_bits as int, 8)) is Ok,
    ensures
        unmapped_bits(bm, lcn, finish) is None,
    decreases finish - lcn,
{
    if lcn < finish {
        let end = smaller(lcn + SCAN_BITS, finish);
        lemma_mapped_part(
            bm,
            0,
            mft_io::ceil_div(bm.total_bits as int, 8),
            0,
            lcn / 8,
            lcn / 8 + byte_span(lcn, end - lcn),
            0,
        );
        lemma_mapped_has_no_holes(bm, end, finish);
    }
}

/// Where all bytes of the bitmap that are counted are on disk, the count comes to
/// none that are not.
pub proof fn lemma_counted_has_no_holes(bm: &BitmapLocation, at: int)
    requires
        bm.well_formed(),
        0 <= at,
        mapped(bm, 0, counted_bytes(bm)) is Ok,
    ensures
        unmapped_bytes(bm, at, counted_bytes(bm)) is None,
    decreases counted_bytes(bm) - at,
{
    let stop = counted_bytes(bm);
    if at < stop {
        let end = smaller(at + COUNT_BYTES, stop);
        lemma_mapped_part(bm, 0, stop, 0, at, end, 0);
        lemma_counted_has_no_holes(bm, end);
    }
}

/// Finds `n_clusters` free clusters in a row: the first at or behind `hint_lcn`,
/// and where there are none, the first on the volume. `None` where the volume
/// has no such clusters.
pub fn find_free_run_io<T: BlockIo + ?Sized>(
    io: &mut T,
    bm: &BitmapLocation,
    n_clusters: u64,
    hint_lcn: u64,
) -> (res: Result<Option<u64>, String>)
    requires
        bm.well_formed(),
    ensures
        (*final(io)).byte_count() == (*old(io)).byte_count(),
        block_io::same_bytes(&*final(io), &*old(io)),
        n_clusters == 0 ==> {
            &&& (*final(io)).faults() == (*old(io)).faults()
            &&& res matches Err(m) && m@ == "n_clusters = 0"@
        },
        n_clusters != 0 && bm.total_bits == 0 ==> res matches Ok(None),
        n_clusters != 0 ==> {
            let c = block_io::contents(&*old(io));
            let faults = (*old(io)).faults();
            let n = n_clusters as int;
            let total = bm.total_bits as int;
            let hint = smaller(hint_lcn as int, total);
            match res {
                Ok(found) => {
                    &&& (*final(io)).faults() == faults
                    &&& match found {
                        Some(s) => if s >= hint {
                            is_first_free(c, bm, n, hint, total, s as int)
                        } else {
                            &&& none_free(c, bm, n, hint, total)
                            &&& is_first_free(c, bm, n, 0, total, s as int)
                        },
                        None => none_free(c, bm, n, 0, total),
                    }
                },
                Err(m) => {
                    ||| scan_stopped(c, bm, n, hint, total, faults, (*final(io)).faults(), m@)
                    ||| none_free(c, bm, n, hint, total) && scan_stopped(
                        c,
                        bm,
                        n,
                        0,
                        smaller(hint + n - 1, total),
                        faults,
                        (*final(io)).faults(),
                        m@,
                    )
                },
            }
        },
{
    if n_clusters == 0 {
        return Err("n_clusters = 0".to_owned());
    }
    let total: u64 = bm.total_bits;
    let hint: u64 = if hint_lcn < total {
        hint_lcn
    } else {
        total
    };
    let ghost c = block_io::contents(&*old(io));
    match scan_for_run(io, bm, n_clusters, hint, total) {
        Err(m) => {
            return Err(m);
        },
        Ok(Some(s)) => {
            return Ok(Some(s));
        },
        Ok(None) => {},
    }
    let ghost now = block_io::contents(&*io);
    proof {
        assert(now =~= c);
    }
    let reach: u64 = hint.saturating_add(n_clusters - 1);
    let finish: u64 = if reach < total {
        reach
    } else {
        total
    };
    match scan_for_run(io, bm, n_clusters, 0, finish) {
        Err(m) => Err(m),
        Ok(Some(s)) => Ok(Some(s)),
        Ok(None) => {
            proof {
                assert forall|t: int| 0 <= t && t + n_clusters <= total implies !#[trigger] all_free(
                    c,
                    bm,
                    t,
                    n_clusters as int,
                ) by {
                    assert(t >= hint || t + n_clusters <= finish);
                }
            }
            Ok(None)
        },
    }
}

/// The number of 1 bits among the first `k` of the bitmap.
pub open spec fn set_bits(c: spec_fn(int) -> u8, bm: &BitmapLocation, k: int) -> int
    decreases k,
{
    if k <= 0 {
        0
    } else {
        set_bits(c, bm, k - 1) + if allocated(c, bm, k - 1) {
            1int
        } else {
            0
        }
    }
}

/// The number of free clusters among the first `k`.
pub open spec fn free_clusters(c: spec_fn(int) -> u8, bm: &BitmapLocation, k: int) -> int
    decreases k,
{
    if k <= 0 {
        0
    } else {
        free_clusters(c, bm, k - 1) + if allocated(c, bm, k - 1) {
            0int
        } else {
            1
        }
    }
}

pub open spec fn smaller(a: int, b: int) -> int {
    if a < b {
        a
    } else {
        b
    }
}

/// The bytes of the bitmap that are there and stand for clusters.
pub open spec fn counted_bytes(bm: &BitmapLocation) -> int {
    smaller(bm.value_length as int, mft_io::ceil_div(bm.total_bits as int, 8))
}

/// Why the bytes of the bitmap in `[at, stop)`, of which some are read at a time,
/// cannot all be read: the first of them that are nowhere on disk.
pub open spec fn unmapped_bytes(bm: &BitmapLocation, at: int, stop: int) -> Option<Seq<char>>
    decreases stop - at,
{
    let end = smaller(at + COUNT_BYTES, stop);
    if at >= stop {
        None
    } else {
        match mapped(bm, at, end - at) {
            Err(m) => Some(m),
            Ok(_) => unmapped_bytes(bm, end, stop),
        }
    }
}

/// The number of 1 bits among the first `k` of the bytes.
pub open spec fn ones(b: Seq<u8>, k: int) -> int
    decreases k,
{
    if k <= 0 {
        0
    } else {
        ones(b, k - 1) + if bit_of(b, k - 1) {
            1int
        } else {
            0
        }
    }
}

/// Counts the 1 bits among the first `k` of the bytes.
pub fn count_ones(bytes: &[u8], k: u64) -> (n: u64)
    requires
        k <= 8 * bytes@.len(),
    ensures
        n == ones(bytes@, k as int),
        n <= k,
{
    let size: usize = bytes.len();
    let mut n: u64 = 0;
    let mut i: u64 = 0;
    while i < k
        invariant
            size == bytes@.len(),
            i <= k <= 8 * size,
            n == ones(bytes@, i as int),
            n <= i,
        decreases k - i,
    {
        assert(i / 8 < size);
        if bit_is_set(bytes[(i / 8) as usize], (i % 8) as u8) {
            n = n + 1;
        }
        i = i + 1;
    }
    n
}

/// The 1 bits of some bytes of the bitmap are those of the bitmap there.
proof fn lemma_ones_are_set(c: spec_fn(int) -> u8, bm: &BitmapLocation, at: int, n: int, k: int)
    requires
        0 <= at,
        0 <= k <= 8 * n,
    ensures
        set_bits(c, bm, 8 * at + k) == set_bits(c, bm, 8 * at) + ones(
            stored_bytes(c, bm, at, n),
            k,
        ),
    decreases k,
{
    if k > 0 {
        lemma_ones_are_set(c, bm, at, n, k - 1);
        let b = 8 * at + k - 1;
        assert(b / 8 == at + (k - 1) / 8 && b % 8 == (k - 1) % 8);
        assert(bit_of(stored_bytes(c, bm, at, n), k - 1) == allocated(c, bm, b));
    }
}

/// Counts the free clusters: those of the volume, less those whose bit is set. A
/// bit behind the last cluster's is no cluster's and does not count. A cluster
/// for which the bitmap is too short has no bit that is set.
pub fn count_free_io<T: BlockIo + ?Sized>(io: &mut T, bm: &BitmapLocation) -> (res: Result<
    u64,
    String,
>)
    requires
        bm.well_formed(),
    ensures
        (*final(io)).byte_count() == (*old(io)).byte_count(),
        block_io::same_bytes(&*final(io), &*old(io)),
        match res {
            Ok(n) => {
                &&& (*final(io)).faults() == (*old(io)).faults()
                &&& unmapped_bytes(bm, 0, counted_bytes(bm)) is None
                &&& 8 * bm.value_length >= bm.total_bits ==> n == free_clusters(
                    block_io::contents(&*old(io)),
                    bm,
                    bm.total_bits as int,
                )
                &&& 8 * bm.value_length < bm.total_bits ==> n == bm.total_bits - set_bits(
                    block_io::contents(&*old(io)),
                    bm,
                    8 * bm.value_length,
                )
            },
            Err(m) => {
                &&& counted_bytes(bm) > 0
                &&& {
                    ||| read_failed(m@, (*old(io)).faults(), (*final(io)).faults())
                    ||| (*final(io)).faults() == (*old(io)).faults() && unmapped_bytes(
                        bm,
                        0,
                        counted_bytes(bm),
                    ) == Some(m@)
                }
            },
        },
{
    let ghost c = block_io::contents(&*old(io));
    let described: u64 = div_up(bm.total_bits, 8);
    let total_bytes: u64 = if bm.value_length < described {
        bm.value_length
    } else {
        described
    };
    let mut ones: u64 = 0;
    let mut at: u64 = 0;
    while at < total_bytes
        invariant
            bm.well_formed(),
            total_bytes == counted_bytes(bm),
            total_bytes <= 0x2000_0000_0000_0000,
            at <= total_bytes,
            c == block_io::contents(&*old(io)),
            (*io).byte_count() == (*old(io)).byte_count(),
            block_io::same_bytes(&*io, &*old(io)),
            (*io).faults() == (*old(io)).faults(),
            unmapped_bytes(bm, at as int, total_bytes as int) == unmapped_bytes(
                bm,
                0,
                total_bytes as int,
            ),
            ones == set_bits(c, bm, smaller(8 * at, bm.total_bits as int)),
            ones <= smaller(8 * at, bm.total_bits as int),
        decreases total_bytes - at,
    {
        let n: u64 = if total_bytes - at < COUNT_BYTES {
            total_bytes - at
        } else {
            COUNT_BYTES
        };
        let ghost now = block_io::contents(&*io);
        let bytes: Vec<u8> = match read_bitmap_bytes_io(io, bm, at, n) {
            Ok(v) => v,
            Err(m) => {
                return Err(m);
            },
        };
        proof {
            assert(now =~= c);
        }
        let behind: u64 = bm.total_bits - 8 * at;
        let bits: u64 = if 8 * n < behind {
            8 * n
        } else {
            behind
        };
        proof {
            lemma_ones_are_set(c, bm, at as int, n as int, bits as int);
        }
        ones = ones + count_ones(bytes.as_slice(), bits);
        at = at + n;
    }
    proof {
        lemma_set_and_free(c, bm, bm.total_bits as int);
    }
    Ok(bm.total_bits - ones)
}

proof fn lemma_set_and_free(c: spec_fn(int) -> u8, bm: &BitmapLocation, k: int)
    requires
        0 <= k,
    ensures
        set_bits(c, bm, k) + free_clusters(c, bm, k) == k,
    decreases k,
{
    if k > 0 {
        lemma_set_and_free(c, bm, k - 1);
    }
}

/// No two bytes of the bitmap's runs are in the same place on disk.
pub open spec fn distinct_places(bm: &BitmapLocation) -> bool {
    forall|a: int, b: int|
        0 <= a && 0 <= b && a != b && is_placed(bm, a) && is_placed(bm, b) ==> #[trigger] place(
            bm,
            a,
        ) != #[trigger] place(bm, b)
}

/// Byte `b` of the bitmap is on disk.
pub open spec fn is_placed(bm: &BitmapLocation, b: int) -> bool {
    data_runs::covering_run(bm.runs@, b / (bm.params.cluster_size as int)) matches Some(run)
        && run.lcn is Some
}

proof fn lemma_mapped_is_placed(bm: &BitmapLocation, at: int, end: int, cursor: int, b: int)
    requires
        bm.well_formed(),
        0 <= at <= b < end,
        mapped_from(bm, at, end, cursor) is Ok,
    ensures
        is_placed(bm, b),
    decreases end - at,
{
    let cs = bm.params.cluster_size as int;
    let vcn = at / cs;
    let run = data_runs::covering_run(bm.runs@, vcn)->0;
    let run_end = (run.starting_vcn + run.length) * cs;
    let n = if run_end < end {
        run_end - at
    } else {
        end - at
    };
    if b >= at + n {
        lemma_mapped_is_placed(bm, at + n, end, cursor + n, b);
    } else {
        data_runs::lemma_covering_run_covers(bm.runs@, vcn);
        vstd::arithmetic::div_mod::lemma_fundamental_div_mod(b, cs);
        vstd::arithmetic::div_mod::lemma_div_is_ordered(at, b, cs);
        let q = b / cs;
        let stop = run.starting_vcn + run.length;
        assert(q < stop) by (nonlinear_arith)
            requires
                b == cs * q + b % cs,
                0 <= b % cs,
                b < stop * cs,
                cs > 0,
        ;
        data_runs::lemma_covering_run_is_the_only(bm.runs@, 0, vcn, q);
    }
}

/// A byte of the bitmap after new bytes were written over a range of it.
proof fn lemma_written_byte(
    before: spec_fn(int) -> u8,
    now: spec_fn(int) -> u8,
    bm: &BitmapLocation,
    start: int,
    data: Seq<u8>,
    b: int,
)
    requires
        bm.well_formed(),
        distinct_places(bm),
        0 <= start,
        data.len() <= usize::MAX,
        start + data.len() <= u64::MAX,
        mapped(bm, start, data.len() as int) is Ok,
        all_written(before, now, mapped(bm, start, data.len() as int)->Ok_0, data),
        0 <= b,
        is_placed(bm, b),
    ensures
        stored(now, bm, b) == if start <= b < start + data.len() {
            data[b - start]
        } else {
            stored(before, bm, b)
        },
{
    let n = data.len() as int;
    let ch = mapped(bm, start, n)->Ok_0;
    lemma_mapped(bm, start, n);
    assert(now(place(bm, b)) == chunks::scattered(before, ch, data, ch.len() as int, place(bm, b)));
    assert forall|a: int| start <= a < start + n implies is_placed(bm, a) by {
        lemma_mapped_is_placed(bm, start, start + n, 0, a);
    }
    lemma_scattered_byte(before, bm, start, ch, data, ch.len() as int, b);
    if start <= b < start + n {
        let k = chunks::lemma_piece_of(ch, n, b - start);
        assert(chunks::laid_at(ch, k));
        chunks::lemma_end_grows(ch, k, ch.len() as int);
        if k + 1 < ch.len() {
            chunks::lemma_end_grows(ch, k + 1, ch.len() as int);
        }
    }
}

proof fn lemma_scattered_byte(
    before: spec_fn(int) -> u8,
    bm: &BitmapLocation,
    start: int,
    ch: Seq<MappedChunk>,
    data: Seq<u8>,
    k: int,
    b: int,
)
    requires
        distinct_places(bm),
        0 <= start,
        0 <= k <= ch.len(),
        chunks::laid_out(ch, data.len() as int),
        chunks::placed(bm.runs@, bm.params.cluster_size as int, start, ch),
        0 <= b,
        is_placed(bm, b),
        forall|a: int| start <= a < start + data.len() ==> is_placed(bm, a),
    ensures
        chunks::scattered(before, ch, data, k, place(bm, b)) == if start <= b < start
            + chunks::end_of(ch, k) {
            data[b - start]
        } else {
            before(place(bm, b))
        },
    decreases k,
{
    if k > 0 {
        let p = place(bm, b);
        let piece = ch[k - 1];
        lemma_scattered_byte(before, bm, start, ch, data, k - 1, b);
        assert(chunks::laid_at(ch, k - 1));
        chunks::lemma_end_grows(ch, k, ch.len() as int);
        chunks::lemma_end_grows(ch, k - 1, ch.len() as int);
        assert(chunks::placed_at(bm.runs@, bm.params.cluster_size as int, start, ch, k - 1));
        if chunks::in_chunk(piece, p) {
            let j = piece.cursor + (p - piece.disk_offset);
            assert(place(bm, start + j) == chunks::place(
                bm.runs@,
                bm.params.cluster_size as int,
                start + j,
            ));
            assert(place(bm, start + j) == p);
            assert(is_placed(bm, start + j));
            assert(start + j == b);
        } else if start + piece.cursor <= b < start + piece.cursor + piece.len {
            let j = b - start;
            assert(chunks::place(bm.runs@, bm.params.cluster_size as int, start + j) == place(
                bm,
                b,
            ));
            assert(chunks::in_chunk(piece, p));
        }
    }
}

/// Allocation and freeing change the clusters that they are asked to, and no
/// others: where the bits of `[lcn, lcn + n)` were made `set`, they are `set`,
/// and every other cluster is as it was.
pub proof fn lemma_mutation_changes_its_range(
    bm: &BitmapLocation,
    before: spec_fn(int) -> u8,
    now: spec_fn(int) -> u8,
    lcn: u64,
    n: u64,
    set: bool,
    faults_before: Option<Faults>,
    faults_now: Option<Faults>,
    res: Result<(), String>,
    k: int,
)
    requires
        bm.well_formed(),
        distinct_places(bm),
        byte_span(lcn as int, n as int) <= usize::MAX,
        mutation_came_out(bm, before, now, lcn as int, n as int, set, faults_before, faults_now, res),
        res is Ok,
        0 <= k,
        is_placed(bm, k / 8),
    ensures
        allocated(now, bm, k) == if lcn <= k < lcn + n {
            set
        } else {
            allocated(before, bm, k)
        },
        lcn <= k < lcn + n ==> allocated(before, bm, k) != set,
{
    if n == 0 {
        assert(now(place(bm, k / 8)) == before(place(bm, k / 8)));
    } else {
        let first = lcn as int / 8;
        let count = byte_span(lcn as int, n as int);
        let from = lcn as int % 8;
        let old_bytes = stored_bytes(before, bm, first, count);
        let new_bytes = with_bits(old_bytes, from, n as int, set);
        lemma_with_bits(old_bytes, from, n as int, set);
        lemma_written_byte(before, now, bm, first, new_bytes, k / 8);
        let j = k - 8 * first;
        if first <= k / 8 < first + count {
            assert(j / 8 == k / 8 - first && j % 8 == k % 8);
            assert(bit_of(new_bytes, j) == if from <= j < from + n {
                set
            } else {
                bit_of(old_bytes, j)
            });
            if from <= j < from + n {
                lemma_none_with(old_bytes, from, 0, n as int, set, j - from);
            }
        }
    }
}

proof fn lemma_none_with(b: Seq<u8>, from: int, i: int, n: int, on: bool, k: int)
    requires
        0 <= i <= k < n,
        first_with(b, from, i, n, on) is None,
    ensures
        bit_of(b, from + k) != on,
    decreases n - i,
{
    if i < k {
        lemma_none_with(b, from, i + 1, n, on, k);
    }
}

/// Freeing what was just allocated makes the device what it was, byte for byte.
/// None of the clusters is in the way of that: where the device counts what
/// fails, and nothing did, it succeeds. Once they are free, each of them is in
/// the way of freeing them again.
pub proof fn lemma_free_undoes_allocate(
    bm: &BitmapLocation,
    before: spec_fn(int) -> u8,
    between: spec_fn(int) -> u8,
    now: spec_fn(int) -> u8,
    lcn: u64,
    n: u64,
    faults_before: Option<Faults>,
    faults_between: Option<Faults>,
    faults_now: Option<Faults>,
    first: Result<(), String>,
    second: Result<(), String>,
)
    requires
        bm.well_formed(),
        distinct_places(bm),
        n > 0,
        byte_span(lcn as int, n as int) <= usize::MAX,
        mutation_came_out(
            bm,
            before,
            between,
            lcn as int,
            n as int,
            true,
            faults_before,
            faults_between,
            first,
        ),
        first is Ok,
        mutation_came_out(
            bm,
            between,
            now,
            lcn as int,
            n as int,
            false,
            faults_between,
            faults_now,
            second,
        ),
    ensures
        first_with(
            stored_bytes(between, bm, lcn as int / 8, byte_span(lcn as int, n as int)),
            lcn as int % 8,
            0,
            n as int,
            false,
        ) is None,
        faults_between is Some && faults_now == faults_between ==> second is Ok,
        second is Ok ==> forall|p: int| #[trigger] now(p) == before(p),
        second is Ok ==> first_with(
            stored_bytes(now, bm, lcn as int / 8, byte_span(lcn as int, n as int)),
            lcn as int % 8,
            0,
            n as int,
            false,
        ) == Some(0int),
{
    let start = lcn as int / 8;
    let count = byte_span(lcn as int, n as int);
    let from = lcn as int % 8;
    let ch = mapped(bm, start, count)->Ok_0;
    let old_bytes = stored_bytes(before, bm, start, count);
    let new_bytes = with_bits(old_bytes, from, n as int, true);
    lemma_mapped(bm, start, count);
    lemma_with_bits(old_bytes, from, n as int, true);
    assert forall|b: int| start <= b < start + count implies stored(between, bm, b)
        == new_bytes[b - start] by {
        lemma_mapped_is_placed(bm, start, start + count, 0, b);
        lemma_written_byte(before, between, bm, start, new_bytes, b);
    }
    assert(stored_bytes(between, bm, start, count) =~= new_bytes);
    lemma_all_with(new_bytes, from, 0, n as int, true);
    let back = with_bits(new_bytes, from, n as int, false);
    lemma_with_bits(new_bytes, from, n as int, false);
    assert forall|i: int| 0 <= i < count implies back[i] == old_bytes[i] by {
        assert forall|b: int| 0 <= b < 8 implies is_set(back[i], b) == is_set(old_bytes[i], b) by {
            let k = 8 * i + b;
            assert(k / 8 == i && k % 8 == b);
            assert(bit_of(back, k) == if from <= k < from + n {
                false
            } else {
                bit_of(new_bytes, k)
            });
            assert(bit_of(new_bytes, k) == if from <= k < from + n {
                true
            } else {
                bit_of(old_bytes, k)
            });
            if from <= k < from + n {
                lemma_none_with(old_bytes, from, 0, n as int, true, k - from);
            }
        }
        lemma_same_bits(back[i], old_bytes[i]);
    }
    assert(back =~= old_bytes);
    if second is Ok {
        lemma_gathered_is_stored(before, bm, start, ch, old_bytes);
        assert forall|p: int| #[trigger] now(p) == before(p) by {
            let all = ch.len() as int;
            assert(now(p) == chunks::scattered(between, ch, old_bytes, all, p));
            chunks::lemma_scatter_restores(before, between, ch, old_bytes, all, p);
            if !chunks::in_chunks(ch, all, p) {
                assert(between(p) == chunks::scattered(before, ch, new_bytes, all, p));
                chunks::lemma_scatter_keeps(before, ch, new_bytes, all, p);
            }
        }
        assert(stored_bytes(now, bm, start, count) =~= old_bytes);
        lemma_none_with(old_bytes, from, 0, n as int, true, 0);
    }
}

/// Bytes with the same bits are the same.
proof fn lemma_same_bits(a: u8, b: u8)
    requires
        forall|bit: int| 0 <= bit < 8 ==> #[trigger] is_set(a, bit) == is_set(b, bit),
    ensures
        a == b,
{
    assert(is_set(a, 0) == is_set(b, 0) && is_set(a, 1) == is_set(b, 1) && is_set(a, 2) == is_set(
        b,
        2,
    ) && is_set(a, 3) == is_set(b, 3));
    assert(is_set(a, 4) == is_set(b, 4) && is_set(a, 5) == is_set(b, 5) && is_set(a, 6) == is_set(
        b,
        6,
    ) && is_set(a, 7) == is_set(b, 7));
    assert(a == b) by (bit_vector)
        requires
            ((a >> 0u8) & 1u8 != 0) == ((b >> 0u8) & 1u8 != 0),
            ((a >> 1u8) & 1u8 != 0) == ((b >> 1u8) & 1u8 != 0),
            ((a >> 2u8) & 1u8 != 0) == ((b >> 2u8) & 1u8 != 0),
            ((a >> 3u8) & 1u8 != 0) == ((b >> 3u8) & 1u8 != 0),
            ((a >> 4u8) & 1u8 != 0) == ((b >> 4u8) & 1u8 != 0),
            ((a >> 5u8) & 1u8 != 0) == ((b >> 5u8) & 1u8 != 0),
            ((a >> 6u8) & 1u8 != 0) == ((b >> 6u8) & 1u8 != 0),
            ((a >> 7u8) & 1u8 != 0) == ((b >> 7u8) & 1u8 != 0),
    ;
}

/// Where all bits of a range are `on`, none of them is not.
proof fn lemma_all_with(b: Seq<u8>, from: int, i: int, n: int, on: bool)
    requires
        0 <= i <= n,
        forall|k: int| from <= k < from + n ==> #[trigger] bit_of(b, k) == on,
    ensures
        first_with(b, from, i, n, !on) is None,
    decreases n - i,
{
    if i < n {
        lemma_all_with(b, from, i + 1, n, on);
    }
}

/// Clusters that were found free can be allocated: none of them is in the way.
pub proof fn lemma_found_run_is_allocatable(
    bm: &BitmapLocation,
    c: spec_fn(int) -> u8,
    s: int,
    n: int,
)
    requires
        0 <= s,
        0 <= n,
        all_free(c, bm, s, n),
    ensures
        first_with(stored_bytes(c, bm, s / 8, byte_span(s, n)), s % 8, 0, n, true) is None,
{
    lemma_all_free_from(bm, c, s, 0, n);
}

proof fn lemma_all_free_from(bm: &BitmapLocation, c: spec_fn(int) -> u8, s: int, i: int, n: int)
    requires
        0 <= s,
        0 <= i <= n,
        all_free(c, bm, s, n),
    ensures
        first_with(stored_bytes(c, bm, s / 8, byte_span(s, n)), s % 8, i, n, true) is None,
    decreases n - i,
{
    if i < n {
        lemma_all_free_from(bm, c, s, i + 1, n);
        let k = s + i;
        let j = s % 8 + i;
        assert(j / 8 == k / 8 - s / 8 && j % 8 == k % 8);
        assert(!allocated(c, bm, k));
    }
}

/// The run list of the bitmap, in a file record.
pub open spec fn bitmap_runs(record: Seq<u8>) -> Result<Seq<DataRun>, Seq<char>> {
    match attr_io::found_attribute(record, AttrType::Data, None) {
        None => Err("$Bitmap has no unnamed $DATA"@),
        Some(loc) => if loc.is_resident {
            Err("resident $Bitmap unsupported (volume too small?)"@)
        } else {
            let pairs = loc.non_resident_mapping_pairs_offset->0 as int;
            if pairs >= loc.attr_length {
                Err("$Bitmap mapping_pairs out of record"@)
            } else {
                data_runs::decoded(
                    record.subrange(loc.attr_offset + pairs, loc.attr_offset + loc.attr_length),
                )
            }
        },
    }
}

/// The number of clusters of `n` bytes, the last of which may be part of one.
pub open spec fn clusters_of(params: BootParams, n: int) -> int {
    mft_io::ceil_div(
        n,
        if params.cluster_size == 0 {
            1
        } else {
            params.cluster_size as int
        },
    )
}

/// The cluster range that a byte range takes in.
pub open spec fn cluster_range(params: BootParams, range: (u64, u64)) -> (u64, u64) {
    (
        (range.0 / if params.cluster_size == 0 {
            1
        } else {
            params.cluster_size
        }) as u64,
        clusters_of(params, range.1 as int) as u64,
    )
}

/// The clusters of `$MFT`, where they are known and are clusters of the volume.
pub open spec fn known_mft_clusters(
    params: BootParams,
    mft_range: Result<(u64, u64), String>,
) -> int {
    match mft_range {
        Ok((_, len)) => {
            let n = clusters_of(params, len as int);
            if params.mft_lcn + n <= params.capacity() {
                n
            } else {
                0
            }
        },
        Err(_) => 0,
    }
}

/// What is known of the bitmap once its record, the place of `$MFT` and those of
/// the other structures were read.
pub open spec fn is_located(
    bm: BitmapLocation,
    params: BootParams,
    record: Seq<u8>,
    mft_range: Result<(u64, u64), String>,
    protected: Seq<(u64, u64)>,
) -> bool {
    let length = attr_io::found_attribute(record, AttrType::Data, None)->0
        .non_resident_value_length->0;
    &&& bm.params == params
    &&& bitmap_runs(record) matches Ok(runs) && bm.runs@ == runs
    &&& bm.value_length == length
    &&& bm.total_bits == if params.capacity() == 0 {
        mft_io::saturated(length as int, 8)
    } else {
        smaller(mft_io::saturated(length as int, 8), params.capacity())
    }
    &&& bm.mft_clusters == known_mft_clusters(params, mft_range)
    &&& bm.other_protected@ == protected.map_values(|r: (u64, u64)| cluster_range(params, r))
}

/// Locates the bitmap, given what reading its record gave, the byte range of
/// `$MFT` where it is in one piece, and the byte ranges of the other structures
/// of the volume.
///
/// A bit stands for a cluster, and the volume has only so many: bits past the
/// volume's end stand for none, whatever the length of the data. The place of
/// `$MFT` is trusted only where it is inside the volume.
pub fn locate_bitmap_io(
    read: Result<(BootParams, Vec<u8>), String>,
    mft_range: Result<(u64, u64), String>,
    protected: Vec<(u64, u64)>,
) -> (res: Result<BitmapLocation, String>)
    ensures
        match read {
            Err(e) => res matches Err(m) && m@ == e@,
            Ok((params, record)) => match res {
                Ok(bm) => {
                    &&& is_located(bm, params, record@, mft_range, protected@)
                    &&& params.cluster_size > 0 ==> bm.well_formed()
                },
                Err(m) => bitmap_runs(record@) == Err::<Seq<DataRun>, Seq<char>>(m@),
            },
        },
{
    let (params, record) = match read {
        Ok((params, record)) => (params, record),
        Err(e) => {
            return Err(e);
        },
    };
    let loc = match find_attribute(record.as_slice(), AttrType::Data, None) {
        Some(loc) => loc,
        None => {
            return Err("$Bitmap has no unnamed $DATA".to_owned());
        },
    };
    if loc.is_resident {
        return Err("resident $Bitmap unsupported (volume too small?)".to_owned());
    }
    let pairs: usize = match loc.non_resident_mapping_pairs_offset {
        Some(v) => v as usize,
        None => {
            return Err("missing mapping_pairs_offset".to_owned());
        },
    };
    if pairs >= loc.attr_length {
        return Err("$Bitmap mapping_pairs out of record".to_owned());
    }
    let start: usize = loc.attr_offset + pairs;
    let end: usize = loc.attr_offset + loc.attr_length;
    let runs: Vec<DataRun> = match decode_runs(&record.as_slice()[start..end]) {
        Ok(v) => v,
        Err(m) => {
            return Err(m);
        },
    };
    proof {
        data_runs::lemma_decoded_is_contiguous(record@.subrange(start as int, end as int));
    }
    let value_length: u64 = match loc.non_resident_value_length {
        Some(v) => v,
        None => {
            return Err("no value_length".to_owned());
        },
    };
    let declared: u64 = saturating_product(value_length, 8);
    let capacity: u64 = params.cluster_capacity();
    let total_bits: u64 = if capacity == 0 || declared < capacity {
        declared
    } else {
        capacity
    };
    let cs: u64 = if params.cluster_size == 0 {
        1
    } else {
        params.cluster_size
    };
    let mft_clusters: u64 = match mft_range {
        Ok((_, len)) => {
            let n: u64 = div_up(len, cs);
            if n <= capacity && params.mft_lcn <= capacity - n {
                n
            } else {
                0
            }
        },
        Err(_) => 0,
    };
    let mut other_protected: Vec<(u64, u64)> = Vec::new();
    let mut i: usize = 0;
    while i < protected.len()
        invariant
            i <= protected@.len(),
            cs == if params.cluster_size == 0 {
                1
            } else {
                params.cluster_size
            },
            other_protected@.len() == i,
            forall|k: int|
                0 <= k < i ==> #[trigger] other_protected@[k] == cluster_range(
                    params,
                    protected@[k],
                ),
        decreases protected.len() - i,
    {
        let range: (u64, u64) = protected[i];
        other_protected.push((range.0 / cs, div_up(range.1, cs)));
        i = i + 1;
    }
    proof {
        assert(other_protected@ =~= protected@.map_values(
            |r: (u64, u64)| cluster_range(params, r),
        ));
    }
    Ok(
        BitmapLocation {
            params,
            runs,
            total_bits,
            value_length,
            mft_clusters,
            other_protected,
        },
    )
}

} // verus!
