//! Index blocks: the contents of `$INDEX_ALLOCATION`.
//!
//! An index block is a structure of several sectors, with the magic `INDX` and
//! fixups of its own. Its size is fixed for a directory by its `$INDEX_ROOT`.

use vstd::prelude::*;

use crate::attr_io;
use crate::attr_io::{find_attribute, AttrType};
use crate::bitmap;
use crate::bitmap::bit_is_set;
use crate::block_io;
use crate::block_io::{BlockIo, Faults};
use crate::bytes;
use crate::bytes::{copy_range, get_u32, is_power_of_two};
use crate::chunks;
use crate::chunks::{read_chunks, write_all_chunks, write_chunks, MappedChunk};
use crate::data_runs;
use crate::data_runs::{decode_runs, find_run, DataRun};
use crate::mft_io;
use crate::mft_io::{
    apply_fixup_on_read_magic, apply_fixup_on_write_magic, cluster_span, div_up, BootParams,
};
use crate::text;
use crate::text::{decimal, hexadecimal};

pub use crate::index_io::{
    IH_FIRST_ENTRY_OFFSET, IH_TOTAL_SIZE_OF_ENTRIES, INDX_INDEX_HEADER_OFFSET,
};

verus! {

/// Offset of the update sequence array's offset within an index block.
pub const INDX_USA_OFFSET_FIELD: usize = 0x04;

/// Offset of the update sequence array's count within an index block.
pub const INDX_USA_COUNT_FIELD: usize = 0x06;

/// The largest index block.
pub const MAX_INDEX_BLOCK_SIZE: u64 = 65536;

/// Where the index blocks of a directory are.
pub struct IndexAllocation {
    pub params: BootParams,
    pub block_size: u64,
    /// The runs of `$INDEX_ALLOCATION:$I30`.
    pub runs: Vec<DataRun>,
    /// The bytes of `$Bitmap:$I30`: bit `k` is 1 where block `k` is in use.
    pub bitmap: Vec<u8>,
    /// The bytes of `$INDEX_ALLOCATION:$I30`.
    pub data_length: u64,
}

/// Where the blocks in use among the first `n` begin, in clusters.
pub open spec fn block_vcns(ia: &IndexAllocation, n: int) -> Seq<u64>
    decreases n,
{
    if n <= 0 {
        Seq::empty()
    } else if bitmap::bit_of(ia.bitmap@, n - 1) {
        block_vcns(ia, n - 1).push(
            ((n - 1) * ia.block_size / (ia.params.cluster_size as int)) as u64,
        )
    } else {
        block_vcns(ia, n - 1)
    }
}

/// Whether the byte at which each block in use begins has a number of 64 bits.
pub open spec fn starts_fit(ia: &IndexAllocation) -> bool {
    forall|k: int|
        0 <= k < 8 * ia.bitmap@.len() && #[trigger] bitmap::bit_of(ia.bitmap@, k) ==> k
            * ia.block_size <= u64::MAX
}

impl IndexAllocation {
    /// The clusters at which the blocks in use begin, in order.
    pub fn allocated_block_vcns(&self) -> (vcns: Vec<u64>)
        requires
            self.params.cluster_size > 0,
            starts_fit(self),
        ensures
            vcns@ == block_vcns(self, 8 * (self.bitmap@.len() as int)),
    {
        let mut out: Vec<u64> = Vec::new();
        let mut i: usize = 0;
        while i < self.bitmap.len()
            invariant
                self.params.cluster_size > 0,
                starts_fit(self),
                i <= self.bitmap@.len(),
                out@ == block_vcns(self, 8 * i),
            decreases self.bitmap.len() - i,
        {
            let byte: u8 = self.bitmap[i];
            let mut bit: u8 = 0;
            while bit < 8
                invariant
                    self.params.cluster_size > 0,
                    starts_fit(self),
                    i < self.bitmap@.len(),
                    byte == self.bitmap@[i as int],
                    bit <= 8,
                    out@ == block_vcns(self, 8 * i + bit),
                decreases 8 - bit,
            {
                assert((8 * i + bit) / 8 == i && (8 * i + bit) % 8 == bit);
                if bit_is_set(byte, bit) {
                    proof {
                        let k = 8 * i + bit;
                        let size = self.block_size as int;
                        assert(bitmap::bit_of(self.bitmap@, k));
                        assert(0 <= k * size) by (nonlinear_arith)
                            requires
                                0 <= k,
                                0 <= size,
                        ;
                        lemma_quotient_fits(k * size, self.params.cluster_size as int);
                    }
                    let start: u128 = (8 * i as u128 + bit as u128) * self.block_size as u128;
                    out.push((start / self.params.cluster_size as u128) as u64);
                }
                bit = bit + 1;
            }
            i = i + 1;
        }
        out
    }
}

proof fn lemma_quotient_fits(a: int, b: int)
    requires
        0 <= a <= u64::MAX,
        0 < b,
    ensures
        0 <= a / b <= u64::MAX,
{
    vstd::arithmetic::div_mod::lemma_div_pos_is_pos(a, b);
    vstd::arithmetic::div_mod::lemma_div_is_ordered_by_denominator(a, 1, b);
}

/// Why the block at `vcn` is not inside the attribute, if it is not.
pub open spec fn extent_error(ia: &IndexAllocation, vcn: u64) -> Option<Seq<char>> {
    let end = vcn * ia.params.cluster_size + ia.block_size;
    if end > u64::MAX {
        Some("index block at VCN "@ + text::dec(vcn as nat) + " has no byte end"@)
    } else if end > ia.data_length {
        Some(
            "index block at VCN "@ + text::dec(vcn as nat) + " ends at byte "@ + text::dec(
                end as nat,
            ) + ", past $INDEX_ALLOCATION length "@ + text::dec(ia.data_length as nat),
        )
    } else {
        None
    }
}

fn check_declared_block_extent(ia: &IndexAllocation, vcn: u64) -> (res: Result<(), String>)
    ensures
        match (res, extent_error(ia, vcn)) {
            (Ok(_), None) => true,
            (Err(m), Some(w)) => m@ == w,
            _ => false,
        },
{
    proof {
        assert(0 <= vcn * ia.params.cluster_size) by (nonlinear_arith)
            requires
                vcn >= 0,
                ia.params.cluster_size >= 0,
        ;
    }
    let end: Option<u64> = match vcn.checked_mul(ia.params.cluster_size) {
        Some(start) => start.checked_add(ia.block_size),
        None => None,
    };
    match end {
        None => Err(
            "index block at VCN ".to_owned().concat(decimal(vcn).as_str()).concat(
                " has no byte end",
            ),
        ),
        Some(end) => {
            if end > ia.data_length {
                Err(
                    "index block at VCN ".to_owned().concat(decimal(vcn).as_str()).concat(
                        " ends at byte ",
                    ).concat(decimal(end).as_str()).concat(
                        ", past $INDEX_ALLOCATION length ",
                    ).concat(decimal(ia.data_length).as_str()),
                )
            } else {
                Ok(())
            }
        },
    }
}

/// Where the block at `vcn` begins on disk, if the whole of it is in one run.
pub open spec fn block_offset(ia: &IndexAllocation, vcn: u64, device_bytes: u64) -> Result<
    int,
    Seq<char>,
> {
    let cs = if ia.params.cluster_size == 0 {
        1
    } else {
        ia.params.cluster_size as int
    };
    let clusters = mft_io::ceil_div(ia.block_size as int, cs);
    match extent_error(ia, vcn) {
        Some(w) => Err(w),
        None => match data_runs::covering_run(ia.runs@, vcn as int) {
            None => Err("VCN "@ + text::dec(vcn as nat) + " not mapped in $INDEX_ALLOCATION"@),
            Some(run) => match run.lcn {
                None => Err("VCN "@ + text::dec(vcn as nat) + " in sparse run"@),
                Some(lcn) => if vcn + clusters > u64::MAX {
                    Err("an index block at VCN "@ + text::dec(vcn as nat) + " has no end"@)
                } else if vcn + clusters > run.starting_vcn + run.length {
                    Err(
                        "index block at VCN "@ + text::dec(vcn as nat) + " spans "@ + text::dec(
                            clusters as nat,
                        ) + " clusters, past the end of its run at VCN "@ + text::dec(
                            (run.starting_vcn + run.length) as nat,
                        )
                            + "; a block that straddles a run boundary is not read or written as one transfer"@,
                    )
                } else {
                    mft_io::span(
                        ia.params,
                        lcn,
                        (vcn - run.starting_vcn) as u64,
                        0,
                        ia.block_size,
                        device_bytes,
                    )
                },
            },
        },
    }
}

/// Where the block at `vcn` begins on disk.
///
/// The whole block must be in one run, inside the volume and the device: what
/// follows the last cluster of a run on disk belongs to something else. A block
/// that crosses from one run to another has no single place.
pub fn vcn_to_disk_offset(ia: &IndexAllocation, vcn: u64, device_bytes: u64) -> (res: Result<
    u64,
    String,
>)
    ensures
        match (res, block_offset(ia, vcn, device_bytes)) {
            (Ok(v), Ok(w)) => v == w,
            (Err(m), Err(w)) => m@ == w,
            _ => false,
        },
{
    match check_declared_block_extent(ia, vcn) {
        Ok(_) => {},
        Err(m) => {
            return Err(m);
        },
    }
    let run: DataRun = match find_run(ia.runs.as_slice(), vcn) {
        Some(run) => run,
        None => {
            return Err(
                "VCN ".to_owned().concat(decimal(vcn).as_str()).concat(
                    " not mapped in $INDEX_ALLOCATION",
                ),
            );
        },
    };
    let lcn: u64 = match run.lcn {
        Some(lcn) => lcn,
        None => {
            return Err(
                "VCN ".to_owned().concat(decimal(vcn).as_str()).concat(" in sparse run"),
            );
        },
    };
    let cs: u64 = if ia.params.cluster_size == 0 {
        1
    } else {
        ia.params.cluster_size
    };
    let clusters: u64 = div_up(ia.block_size, cs);
    let run_end: u64 = run.starting_vcn + run.length;
    if clusters > u64::MAX - vcn {
        return Err(
            "an index block at VCN ".to_owned().concat(decimal(vcn).as_str()).concat(
                " has no end",
            ),
        );
    }
    if vcn + clusters > run_end {
        return Err(
            "index block at VCN ".to_owned().concat(decimal(vcn).as_str()).concat(
                " spans ",
            ).concat(decimal(clusters).as_str()).concat(
                " clusters, past the end of its run at VCN ",
            ).concat(decimal(run_end).as_str()).concat(
                "; a block that straddles a run boundary is not read or written as one transfer",
            ),
        );
    }
    cluster_span(&ia.params, lcn, vcn - run.starting_vcn, 0, ia.block_size, device_bytes)
}

/// The pieces of the block at `vcn` from byte `cursor` of the block on.
pub open spec fn block_mapped_from(
    ia: &IndexAllocation,
    vcn: u64,
    cursor: int,
    device_bytes: u64,
) -> Result<Seq<MappedChunk>, Seq<char>>
    decreases ia.block_size - cursor,
{
    let cs = ia.params.cluster_size as int;
    let cluster = vcn + cursor / cs;
    let byte = cursor % cs;
    if cursor >= ia.block_size {
        Ok(Seq::empty())
    } else if cluster > u64::MAX {
        Err("an index block at VCN "@ + text::dec(vcn as nat) + " has no end"@)
    } else {
        match data_runs::covering_run(ia.runs@, cluster) {
            None => Err("VCN "@ + text::dec(cluster as nat) + " not mapped in $INDEX_ALLOCATION"@),
            Some(run) => match run.lcn {
                None => Err("VCN "@ + text::dec(cluster as nat) + " in sparse run"@),
                Some(lcn) => {
                    let in_run = (run.starting_vcn + run.length - cluster) * cs;
                    let n = if in_run - byte < ia.block_size - cursor {
                        in_run - byte
                    } else {
                        ia.block_size - cursor
                    };
                    if in_run > u64::MAX || in_run < byte {
                        Err(
                            "$INDEX_ALLOCATION run at VCN "@ + text::dec(run.starting_vcn as nat)
                                + " cannot cover block byte "@ + text::dec(cursor as nat),
                        )
                    } else if n <= 0 {
                        Err(
                            "$INDEX_ALLOCATION run at VCN "@ + text::dec(run.starting_vcn as nat)
                                + " contributes no bytes to the block"@,
                        )
                    } else {
                        match mft_io::span(
                            ia.params,
                            lcn,
                            (cluster - run.starting_vcn) as u64,
                            byte as u64,
                            n as u64,
                            device_bytes,
                        ) {
                            Err(m) => Err(m),
                            Ok(offset) => bitmap::after(
                                seq![
                                    MappedChunk {
                                        disk_offset: offset as u64,
                                        cursor: cursor as usize,
                                        len: n as usize,
                                    },
                                ],
                                block_mapped_from(ia, vcn, cursor + n, device_bytes),
                            ),
                        }
                    }
                },
            },
        }
    }
}

/// The pieces of the block at `vcn`.
pub open spec fn block_mapped(ia: &IndexAllocation, vcn: u64, device_bytes: u64) -> Result<
    Seq<MappedChunk>,
    Seq<char>,
> {
    match extent_error(ia, vcn) {
        Some(w) => Err(w),
        None => if ia.params.cluster_size == 0 {
            Err("$INDEX_ALLOCATION has a zero-byte cluster size"@)
        } else if ia.block_size > usize::MAX {
            Err(
                "index block size "@ + text::dec(ia.block_size as nat)
                    + " does not fit in memory"@,
            )
        } else if ia.block_size == 0 {
            Err("index block size is zero"@)
        } else {
            block_mapped_from(ia, vcn, 0, device_bytes)
        },
    }
}

proof fn lemma_block_mapped_from(ia: &IndexAllocation, vcn: u64, cursor: int, device_bytes: u64)
    requires
        0 <= cursor <= ia.block_size <= usize::MAX,
        ia.params.cluster_size > 0,
    ensures
        block_mapped_from(ia, vcn, cursor, device_bytes) matches Ok(ch) ==> {
            &&& chunks::end_of(ch, ch.len() as int) == ia.block_size - cursor
            &&& forall|k: int|
                0 <= k < ch.len() ==> {
                    &&& (#[trigger] ch[k]).len > 0
                    &&& ch[k].cursor == cursor + chunks::end_of(ch, k)
                    &&& ch[k].disk_offset + ch[k].len <= u64::MAX
                }
        },
    decreases ia.block_size - cursor,
{
    let cs = ia.params.cluster_size as int;
    let cluster = vcn + cursor / cs;
    let byte = cursor % cs;
    if cursor < ia.block_size && block_mapped_from(ia, vcn, cursor, device_bytes) is Ok {
        let ch = block_mapped_from(ia, vcn, cursor, device_bytes)->Ok_0;
        let run = data_runs::covering_run(ia.runs@, cluster)->0;
        data_runs::lemma_covering_run_covers(ia.runs@, cluster);
        let lcn = run.lcn->0;
        let in_run = (run.starting_vcn + run.length - cluster) * cs;
        let n = if in_run - byte < ia.block_size - cursor {
            in_run - byte
        } else {
            ia.block_size - cursor
        };
        vstd::arithmetic::div_mod::lemma_mod_bound(cursor, cs);
        vstd::arithmetic::div_mod::lemma_div_pos_is_pos(cursor, cs);
        let offset = mft_io::span(
            ia.params,
            lcn,
            (cluster - run.starting_vcn) as u64,
            byte as u64,
            n as u64,
            device_bytes,
        )->Ok_0;
        assert(0 <= offset) by (nonlinear_arith)
            requires
                offset == (lcn + (cluster - run.starting_vcn)) * cs + byte,
                cluster >= run.starting_vcn,
                lcn >= 0,
                cs > 0,
                byte >= 0,
        ;
        let rest = block_mapped_from(ia, vcn, cursor + n, device_bytes)->Ok_0;
        let first = MappedChunk {
            disk_offset: offset as u64,
            cursor: cursor as usize,
            len: n as usize,
        };
        lemma_block_mapped_from(ia, vcn, cursor + n, device_bytes);
        assert(ch =~= seq![first] + rest);
        chunks::lemma_end_of_cons(first, rest, rest.len() as int);
        assert forall|k: int| 0 <= k < ch.len() implies {
            &&& (#[trigger] ch[k]).len > 0
            &&& ch[k].cursor == cursor + chunks::end_of(ch, k)
            &&& ch[k].disk_offset + ch[k].len <= u64::MAX
        } by {
            if k > 0 {
                assert(ch[k] == rest[k - 1]);
                chunks::lemma_end_of_cons(first, rest, k - 1);
            }
        }
    }
}

/// The pieces of a block make it up.
pub proof fn lemma_block_mapped(ia: &IndexAllocation, vcn: u64, device_bytes: u64)
    ensures
        block_mapped(ia, vcn, device_bytes) matches Ok(ch) ==> chunks::laid_out(
            ch,
            ia.block_size as int,
        ) && 0 < ia.block_size <= usize::MAX,
{
    if block_mapped(ia, vcn, device_bytes) is Ok {
        lemma_block_mapped_from(ia, vcn, 0, device_bytes);
        let ch = block_mapped(ia, vcn, device_bytes)->Ok_0;
        assert forall|k: int| 0 <= k < ch.len() implies #[trigger] chunks::laid_at(ch, k) by {
            assert(ch[k].len > 0);
        }
    }
}

/// The pieces of the block at `vcn`, none of which goes from one run to another.
/// All of them are known before anything is read or written.
pub fn map_indx_block(ia: &IndexAllocation, vcn: u64, device_bytes: u64) -> (res: Result<
    Vec<MappedChunk>,
    String,
>)
    ensures
        match (res, block_mapped(ia, vcn, device_bytes)) {
            (Ok(v), Ok(w)) => v@ == w && chunks::laid_out(v@, ia.block_size as int)
                && ia.block_size <= usize::MAX,
            (Err(m), Err(w)) => m@ == w,
            _ => false,
        },
{
    match check_declared_block_extent(ia, vcn) {
        Ok(_) => {},
        Err(m) => {
            return Err(m);
        },
    }
    let cs: u64 = ia.params.cluster_size;
    if cs == 0 {
        return Err("$INDEX_ALLOCATION has a zero-byte cluster size".to_owned());
    }
    if ia.block_size > usize::MAX as u64 {
        return Err(
            "index block size ".to_owned().concat(decimal(ia.block_size).as_str()).concat(
                " does not fit in memory",
            ),
        );
    }
    let size: usize = ia.block_size as usize;
    if size == 0 {
        return Err("index block size is zero".to_owned());
    }
    let mut out: Vec<MappedChunk> = Vec::new();
    let mut cursor: usize = 0;
    proof {
        lemma_block_mapped(ia, vcn, device_bytes);
        let want = block_mapped(ia, vcn, device_bytes);
        assert(want is Ok ==> out@ + want->Ok_0 =~= want->Ok_0);
    }
    while cursor < size
        invariant
            cs == ia.params.cluster_size,
            cs > 0,
            size == ia.block_size,
            cursor <= size,
            bitmap::after(out@, block_mapped_from(ia, vcn, cursor as int, device_bytes))
                == block_mapped(ia, vcn, device_bytes),
        decreases size - cursor,
    {
        let clusters_in: u64 = cursor as u64 / cs;
        let byte: u64 = cursor as u64 % cs;
        if clusters_in > u64::MAX - vcn {
            return Err(
                "an index block at VCN ".to_owned().concat(decimal(vcn).as_str()).concat(
                    " has no end",
                ),
            );
        }
        let cluster: u64 = vcn + clusters_in;
        let run: DataRun = match find_run(ia.runs.as_slice(), cluster) {
            Some(run) => run,
            None => {
                return Err(
                    "VCN ".to_owned().concat(decimal(cluster).as_str()).concat(
                        " not mapped in $INDEX_ALLOCATION",
                    ),
                );
            },
        };
        let lcn: u64 = match run.lcn {
            Some(lcn) => lcn,
            None => {
                return Err(
                    "VCN ".to_owned().concat(decimal(cluster).as_str()).concat(" in sparse run"),
                );
            },
        };
        let left: Option<u64> = match (run.starting_vcn + run.length - cluster).checked_mul(cs) {
            Some(v) => v.checked_sub(byte),
            None => None,
        };
        let in_run: u64 = match left {
            Some(v) => v,
            None => {
                return Err(
                    "$INDEX_ALLOCATION run at VCN ".to_owned().concat(
                        decimal(run.starting_vcn).as_str(),
                    ).concat(" cannot cover block byte ").concat(decimal(cursor as u64).as_str()),
                );
            },
        };
        let n: u64 = if in_run < (size - cursor) as u64 {
            in_run
        } else {
            (size - cursor) as u64
        };
        if n == 0 {
            return Err(
                "$INDEX_ALLOCATION run at VCN ".to_owned().concat(
                    decimal(run.starting_vcn).as_str(),
                ).concat(" contributes no bytes to the block"),
            );
        }
        let disk_offset: u64 = match cluster_span(
            &ia.params,
            lcn,
            cluster - run.starting_vcn,
            byte,
            n,
            device_bytes,
        ) {
            Ok(v) => v,
            Err(m) => {
                return Err(m);
            },
        };
        let ghost had = out@;
        let ghost rest = block_mapped_from(ia, vcn, cursor + n, device_bytes);
        out.push(MappedChunk { disk_offset, cursor, len: n as usize });
        proof {
            let piece = MappedChunk { disk_offset, cursor, len: n as usize };
            assert(rest is Ok ==> had + (seq![piece] + rest->Ok_0) =~= out@ + rest->Ok_0);
        }
        cursor = cursor + n as usize;
    }
    proof {
        assert(out@ + Seq::<MappedChunk>::empty() =~= out@);
    }
    Ok(out)
}

/// What a directory's record says of its index blocks.
pub struct IndexFacts {
    pub block_size: int,
    pub runs: Seq<DataRun>,
    pub bitmap: Seq<u8>,
    pub data_length: int,
}

/// The size of the index blocks, in a directory's record.
pub open spec fn declared_block_size(params: BootParams, record: Seq<u8>) -> Result<
    int,
    Seq<char>,
> {
    match attr_io::found_attribute(record, AttrType::IndexRoot, Some("$I30"@)) {
        None => Err("$INDEX_ROOT:$I30 not found on parent"@),
        Some(loc) => if !loc.is_resident {
            Err("no value_offset"@)
        } else if loc.resident_value_length->0 < 0x10 {
            Err(
                "$INDEX_ROOT:$I30 value is "@ + text::dec(loc.resident_value_length->0 as nat)
                    + " bytes, too short to hold an index header"@,
            )
        } else {
            let size = bytes::le32(record, loc.attr_offset + loc.resident_value_offset->0 + 8);
            if params.bytes_per_sector <= size <= MAX_INDEX_BLOCK_SIZE && bytes::power_of_two(size) {
                Ok(size)
            } else {
                Err(
                    "$INDEX_ROOT:$I30 says its blocks are "@ + text::dec(size as nat)
                        + " bytes, which is not an index block size"@,
                )
            }
        },
    }
}

/// The runs and the length of the index blocks, in a directory's record.
pub open spec fn declared_runs(record: Seq<u8>) -> Result<(Seq<DataRun>, int), Seq<char>> {
    match attr_io::found_attribute(record, AttrType::IndexAllocation, Some("$I30"@)) {
        None => Err("$INDEX_ALLOCATION:$I30 not found"@),
        Some(loc) => if loc.is_resident {
            Err("$INDEX_ALLOCATION unexpectedly resident"@)
        } else {
            match data_runs::decoded(
                record.subrange(
                    loc.attr_offset + loc.non_resident_mapping_pairs_offset->0,
                    loc.attr_offset + loc.attr_length,
                ),
            ) {
                Err(m) => Err(m),
                Ok(runs) => Ok((runs, loc.non_resident_value_length->0 as int)),
            }
        },
    }
}

/// The bitmap of the index blocks: in a directory's record, or what reading it
/// gave where the record has no room for it.
pub open spec fn declared_bitmap(record: Seq<u8>, spilled: Result<Vec<u8>, String>) -> Result<
    Seq<u8>,
    Seq<char>,
> {
    match attr_io::found_attribute(record, AttrType::Bitmap, Some("$I30"@)) {
        None => Err("$Bitmap:$I30 not found"@),
        Some(loc) => if loc.is_resident {
            let start = loc.attr_offset + loc.resident_value_offset->0;
            Ok(record.subrange(start, start + loc.resident_value_length->0))
        } else {
            match spilled {
                Ok(v) => Ok(v@),
                Err(e) => Err("reading a non-resident $Bitmap:$I30: "@ + e@),
            }
        },
    }
}

/// What a directory's record says of its index blocks, or what it lacks.
pub open spec fn index_facts(
    params: BootParams,
    record: Seq<u8>,
    spilled: Result<Vec<u8>, String>,
) -> Result<IndexFacts, Seq<char>> {
    match declared_block_size(params, record) {
        Err(m) => Err(m),
        Ok(block_size) => match declared_runs(record) {
            Err(m) => Err(m),
            Ok((runs, data_length)) => match declared_bitmap(record, spilled) {
                Err(m) => Err(m),
                Ok(bitmap) => Ok(IndexFacts { block_size, runs, bitmap, data_length }),
            },
        },
    }
}

/// Loads what is needed to reach a directory's index blocks, given what reading
/// the directory's record gave, and what reading its `$Bitmap:$I30` gave where
/// that is not in the record.
pub fn load_for_directory_io(
    read: Result<(BootParams, Vec<u8>), String>,
    spilled: Result<Vec<u8>, String>,
) -> (res: Result<IndexAllocation, String>)
    ensures
        match read {
            Err(e) => res matches Err(m) && m@ == e@,
            Ok((params, record)) => match (res, index_facts(params, record@, spilled)) {
                (Ok(ia), Ok(w)) => {
                    &&& ia.params == params
                    &&& ia.block_size == w.block_size
                    &&& ia.runs@ == w.runs
                    &&& ia.bitmap@ == w.bitmap
                    &&& ia.data_length == w.data_length
                    &&& data_runs::contiguous_from(ia.runs@, 0)
                },
                (Err(m), Err(w)) => m@ == w,
                _ => false,
            },
        },
{
    let (params, record) = match read {
        Ok((params, record)) => (params, record),
        Err(e) => {
            return Err(e);
        },
    };
    let block_size: u64 = match load_block_size(&params, record.as_slice()) {
        Ok(v) => v,
        Err(m) => {
            return Err(m);
        },
    };
    let loc = match find_attribute(record.as_slice(), AttrType::IndexAllocation, Some("$I30")) {
        Some(loc) => loc,
        None => {
            return Err("$INDEX_ALLOCATION:$I30 not found".to_owned());
        },
    };
    if loc.is_resident {
        return Err("$INDEX_ALLOCATION unexpectedly resident".to_owned());
    }
    let pairs: usize = match loc.non_resident_mapping_pairs_offset {
        Some(v) => v as usize,
        None => {
            return Err("no mapping_pairs_offset".to_owned());
        },
    };
    let start: usize = loc.attr_offset + pairs;
    let end: usize = loc.attr_offset + loc.attr_length;
    let runs: Vec<DataRun> = match decode_runs(&record.as_slice()[start..end]) {
        Ok(v) => v,
        Err(m) => {
            return Err(m);
        },
    };
    proof {
        data_runs::lemma_decoded_is_contiguous(record@.subrange(start as int, end as int));
    }
    let data_length: u64 = match loc.non_resident_value_length {
        Some(v) => v,
        None => {
            return Err("no value_length".to_owned());
        },
    };
    match load_block_bitmap(record.as_slice(), spilled) {
        Ok(bitmap) => Ok(IndexAllocation { params, block_size, runs, bitmap, data_length }),
        Err(m) => Err(m),
    }
}

fn load_block_size(params: &BootParams, record: &[u8]) -> (res: Result<u64, String>)
    ensures
        match (res, declared_block_size(*params, record@)) {
            (Ok(v), Ok(w)) => v == w,
            (Err(m), Err(w)) => m@ == w,
            _ => false,
        },
{
    let loc = match find_attribute(record, AttrType::IndexRoot, Some("$I30")) {
        Some(loc) => loc,
        None => {
            return Err("$INDEX_ROOT:$I30 not found on parent".to_owned());
        },
    };
    let value_offset: usize = match loc.resident_value_offset {
        Some(v) => v as usize,
        None => {
            return Err("no value_offset".to_owned());
        },
    };
    let value_length: u32 = match loc.resident_value_length {
        Some(v) => v,
        None => {
            return Err("no value_length".to_owned());
        },
    };
    if value_length < 0x10 {
        return Err(
            "$INDEX_ROOT:$I30 value is ".to_owned().concat(
                decimal(value_length as u64).as_str(),
            ).concat(" bytes, too short to hold an index header"),
        );
    }
    let total: usize = record.len();
    let size: u64 = get_u32(record, loc.attr_offset + value_offset + 8) as u64;
    if size < params.bytes_per_sector as u64 || size > MAX_INDEX_BLOCK_SIZE || !is_power_of_two(
        size,
    ) {
        return Err(
            "$INDEX_ROOT:$I30 says its blocks are ".to_owned().concat(
                decimal(size).as_str(),
            ).concat(" bytes, which is not an index block size"),
        );
    }
    Ok(size)
}

fn load_block_bitmap(record: &[u8], spilled: Result<Vec<u8>, String>) -> (res: Result<
    Vec<u8>,
    String,
>)
    ensures
        match (res, declared_bitmap(record@, spilled)) {
            (Ok(v), Ok(w)) => v@ == w,
            (Err(m), Err(w)) => m@ == w,
            _ => false,
        },
{
    let loc = match find_attribute(record, AttrType::Bitmap, Some("$I30")) {
        Some(loc) => loc,
        None => {
            return Err("$Bitmap:$I30 not found".to_owned());
        },
    };
    if loc.is_resident {
        let offset: usize = match loc.resident_value_offset {
            Some(v) => v as usize,
            None => {
                return Err("no value_offset".to_owned());
            },
        };
        let len: usize = match loc.resident_value_length {
            Some(v) => v as usize,
            None => {
                return Err("no value_length".to_owned());
            },
        };
        let total: usize = record.len();
        let start: usize = loc.attr_offset + offset;
        Ok(copy_range(record, start, start + len))
    } else {
        match spilled {
            Ok(v) => Ok(v),
            Err(e) => Err(
                "reading a non-resident $Bitmap:$I30: ".to_owned().concat(e.as_str()),
            ),
        }
    }
}

/// A read failed, and `m` is what the device said of it.
pub open spec fn read_failed(
    m: Seq<char>,
    faults_before: Option<Faults>,
    faults_now: Option<Faults>,
) -> bool {
    &&& block_io::read_fault(faults_before, faults_now)
    &&& exists|e: Seq<char>| m == #[trigger] ("read indx: "@ + e)
}

/// Reads the block at `vcn` as it is on disk, with its pieces.
fn read_raw_indx_block_io<T: BlockIo + ?Sized>(io: &mut T, ia: &IndexAllocation, vcn: u64) -> (res:
    Result<(Vec<u8>, Vec<MappedChunk>), String>)
    ensures
        (*final(io)).byte_count() == (*old(io)).byte_count(),
        block_io::same_bytes(&*final(io), &*old(io)),
        match (res, block_mapped(ia, vcn, (*old(io)).byte_count())) {
            (Ok((raw, v)), Ok(ch)) => {
                &&& v@ == ch
                &&& (*final(io)).faults() == (*old(io)).faults()
                &&& raw@ == chunks::collected(
                    block_io::contents(&*old(io)),
                    ch,
                    ia.block_size as int,
                )
                &&& raw@.len() == ia.block_size
                &&& chunks::laid_out(ch, ia.block_size as int)
            },
            (Err(m), Ok(_)) => read_failed(m@, (*old(io)).faults(), (*final(io)).faults()),
            (Err(m), Err(w)) => m@ == w && (*final(io)).faults() == (*old(io)).faults(),
            _ => false,
        },
{
    let list: Vec<MappedChunk> = match map_indx_block(ia, vcn, io.size()) {
        Ok(v) => v,
        Err(m) => {
            return Err(m);
        },
    };
    match read_chunks(io, list.as_slice(), ia.block_size as usize, "read indx: ") {
        Ok(raw) => {
            proof {
                chunks::lemma_gathered_is_collected(
                    block_io::contents(&*old(io)),
                    list@,
                    raw@,
                );
            }
            Ok((raw, list))
        },
        Err(m) => Err(m),
    }
}

/// A byte as two hexadecimal digits.
pub open spec fn two_digits(b: u8) -> Seq<char> {
    (if b < 16 {
        "0"@
    } else {
        ""@
    }) + text::hex(b as nat)
}

fn two_digits_text(b: u8) -> (s: String)
    ensures
        s@ == two_digits(b),
{
    let pad = if b < 16 {
        "0"
    } else {
        ""
    };
    pad.to_owned().concat(hexadecimal(b as u64).as_str())
}

/// The letters that an index block begins with.
pub open spec fn indx_magic() -> Seq<u8> {
    seq![0x49u8, 0x4E, 0x44, 0x58]
}

/// What a block that was read is, once its sectors are put right.
pub open spec fn block_read(raw: Seq<u8>, vcn: u64, disk_offset: u64, bps: u16) -> Result<
    Seq<u8>,
    Seq<char>,
> {
    if !mft_io::has_magic(raw, indx_magic()) {
        Err(
            "block at VCN "@ + text::dec(vcn as nat) + " (disk 0x"@ + text::hex(disk_offset as nat)
                + ") is not an INDX record: ["@ + two_digits(raw[0]) + ", "@ + two_digits(raw[1])
                + ", "@ + two_digits(raw[2]) + ", "@ + two_digits(raw[3]) + "]"@,
        )
    } else {
        mft_io::fixed_on_read(raw, bps as int, indx_magic())
    }
}

/// Puts the sectors of a block right that was read from `disk_offset` as `raw`,
/// after a look at its first letters.
pub fn block_of(raw: Vec<u8>, vcn: u64, disk_offset: u64, bytes_per_sector: u16) -> (res: Result<
    Vec<u8>,
    String,
>)
    requires
        raw.len() >= 4,
    ensures
        match (res, block_read(raw@, vcn, disk_offset, bytes_per_sector)) {
            (Ok(v), Ok(w)) => v@ == w,
            (Err(m), Err(w)) => m@ == w,
            _ => false,
        },
{
    let mut buf: Vec<u8> = raw;
    let magic: [u8; 4] = [0x49, 0x4E, 0x44, 0x58];
    assert(magic@ =~= indx_magic());
    if !(buf[0] == magic[0] && buf[1] == magic[1] && buf[2] == magic[2] && buf[3] == magic[3]) {
        return Err(
            "block at VCN ".to_owned().concat(decimal(vcn).as_str()).concat(" (disk 0x").concat(
                hexadecimal(disk_offset).as_str(),
            ).concat(") is not an INDX record: [").concat(two_digits_text(buf[0]).as_str()).concat(
                ", ",
            ).concat(two_digits_text(buf[1]).as_str()).concat(", ").concat(
                two_digits_text(buf[2]).as_str(),
            ).concat(", ").concat(two_digits_text(buf[3]).as_str()).concat("]"),
        );
    }
    match apply_fixup_on_read_magic(buf.as_mut_slice(), bytes_per_sector, &magic) {
        Ok(_) => Ok(buf),
        Err(m) => Err(m),
    }
}

/// Reads the block at `vcn` and puts its sectors right.
pub fn read_indx_block_io<T: BlockIo + ?Sized>(io: &mut T, ia: &IndexAllocation, vcn: u64) -> (res:
    Result<Vec<u8>, String>)
    requires
        ia.block_size == 0 || ia.block_size >= 4,
    ensures
        (*final(io)).byte_count() == (*old(io)).byte_count(),
        block_io::same_bytes(&*final(io), &*old(io)),
        match block_mapped(ia, vcn, (*old(io)).byte_count()) {
            Err(w) => {
                &&& (*final(io)).faults() == (*old(io)).faults()
                &&& res matches Err(m) && m@ == w
            },
            Ok(ch) => {
                let raw = chunks::collected(
                    block_io::contents(&*old(io)),
                    ch,
                    ia.block_size as int,
                );
                ||| res matches Err(m) && read_failed(
                    m@,
                    (*old(io)).faults(),
                    (*final(io)).faults(),
                )
                ||| (*final(io)).faults() == (*old(io)).faults() && match (
                    res,
                    block_read(raw, vcn, ch[0].disk_offset, ia.params.bytes_per_sector),
                ) {
                    (Ok(v), Ok(w)) => v@ == w,
                    (Err(m), Err(w)) => m@ == w,
                    _ => false,
                }
            },
        },
{
    proof {
        lemma_block_mapped(ia, vcn, (*old(io)).byte_count());
    }
    let (raw, list) = match read_raw_indx_block_io(io, ia, vcn) {
        Ok((raw, list)) => (raw, list),
        Err(m) => {
            return Err(m);
        },
    };
    proof {
        assert(chunks::end_of(list@, list@.len() as int) > 0);
        assert(list@.len() > 0);
    }
    block_of(raw, vcn, list[0].disk_offset, ia.params.bytes_per_sector)
}

/// What writing a block's pieces did. Where no write failed, all pieces were
/// written, and what is left to fail is the flush. Where one did and no other, the
/// device is as it was. Where more did, it could not be restored, and the error
/// says so.
pub open spec fn block_write_came_out(
    before: spec_fn(int) -> u8,
    now: spec_fn(int) -> u8,
    ch: Seq<MappedChunk>,
    data: Seq<u8>,
    faults_before: Option<Faults>,
    faults_now: Option<Faults>,
    res: Result<(), String>,
) -> bool {
    match res {
        Ok(_) => bitmap::all_written(before, now, ch, data) && faults_now == faults_before,
        Err(m) => {
            ||| bitmap::all_written(before, now, ch, data) && faults_now == block_io::more_faults(
                faults_before,
                0,
                0,
                1,
            )
            ||| exists|e: Seq<char>|
                #[trigger] undone(before, now, ch, faults_before, faults_now, e, m@)
        },
    }
}

/// What undoing a write did that failed for the reason `e`, where `m` is what is
/// said of it.
pub open spec fn undone(
    before: spec_fn(int) -> u8,
    now: spec_fn(int) -> u8,
    ch: Seq<MappedChunk>,
    faults_before: Option<Faults>,
    faults_now: Option<Faults>,
    e: Seq<char>,
    m: Seq<char>,
) -> bool {
    ||| {
        &&& forall|p: int| #[trigger] now(p) == before(p)
        &&& put_back(faults_before, faults_now, 1, e, m)
    }
    ||| {
        &&& bitmap::only_these_changed(before, now, ch)
        &&& not_put_back(faults_before, faults_now, 2, e, m)
    }
}

/// After so many failed writes, no other failed, and `m` says whether the flush
/// did.
pub open spec fn put_back(
    faults_before: Option<Faults>,
    faults_now: Option<Faults>,
    writes: int,
    e: Seq<char>,
    m: Seq<char>,
) -> bool {
    ||| m == "write indx: "@ + e && faults_now == block_io::more_faults(
        faults_before,
        0,
        writes,
        0,
    )
    ||| (exists|s: Seq<char>| m == #[trigger] sync_failed(e, s)) && faults_now
        == block_io::more_faults(faults_before, 0, writes, 1)
}

/// At least so many writes failed, and `m` says so.
pub open spec fn not_put_back(
    faults_before: Option<Faults>,
    faults_now: Option<Faults>,
    least: int,
    e: Seq<char>,
    m: Seq<char>,
) -> bool {
    &&& exists|n: int|
        n >= least && #[trigger] bitmap::writes_failed(faults_before, faults_now, n)
    &&& exists|r: Seq<char>| m == #[trigger] rollback_failed(e, r)
}

/// What is said where a write failed and could not be undone either.
pub open spec fn rollback_failed(e: Seq<char>, r: Seq<char>) -> Seq<char> {
    "write indx: "@ + e + "; and rolling the INDX block back failed too ("@ + r
        + ") — run chkdsk"@
}

/// What is said where a write failed and what undid it may not last.
pub open spec fn sync_failed(e: Seq<char>, s: Seq<char>) -> Seq<char> {
    "write indx: "@ + e + "; the INDX rollback was written but syncing it failed ("@ + s
        + ") — run chkdsk"@
}

/// Rewrites the first `k + 1` pieces of a block from `raw`, which is what they
/// held, after the write of piece `k` failed for the reason `e`: that one too, as
/// it may have been written in part. Gives what is to be said of it.
pub fn undo_block<T: BlockIo + ?Sized>(
    io: &mut T,
    list: &[MappedChunk],
    k: usize,
    raw: &[u8],
    e: String,
) -> (m: String)
    requires
        k < list@.len(),
        chunks::laid_out(list@, raw@.len() as int),
    ensures
        (*final(io)).byte_count() == (*old(io)).byte_count(),
        ({
            let left = block_io::contents(&*old(io));
            let now = block_io::contents(&*final(io));
            ||| {
                &&& forall|p: int|
                    #[trigger] now(p) == chunks::scattered(left, list@, raw@, k + 1, p)
                &&& put_back((*old(io)).faults(), (*final(io)).faults(), 0, e@, m@)
            }
            ||| {
                &&& forall|p: int|
                    !chunks::in_chunks(list@, k + 1, p) ==> #[trigger] now(p) == left(p)
                &&& not_put_back((*old(io)).faults(), (*final(io)).faults(), 1, e@, m@)
            }
        }),
{
    let pieces: usize = list.len();
    let rollback = write_all_chunks(io, list, k + 1, raw);
    let ghost written = block_io::contents(&*io);
    let ghost count = (*io).faults();
    let synced = io.sync();
    assert(forall|p: int| #[trigger] block_io::contents(&*io)(p) == written(p));
    match rollback {
        Some(r) => {
            proof {
                let n = choose|n: int|
                    n >= 1 && count == #[trigger] block_io::more_faults(
                        (*old(io)).faults(),
                        0,
                        n,
                        0,
                    );
                assert(bitmap::writes_failed((*old(io)).faults(), (*io).faults(), n));
                assert(rollback_failed(e@, r@) == rollback_failed(e@, r@));
            }
            "write indx: ".to_owned().concat(e.as_str()).concat(
                "; and rolling the INDX block back failed too (",
            ).concat(r.as_str()).concat(") — run chkdsk")
        },
        None => match synced {
            Ok(_) => "write indx: ".to_owned().concat(e.as_str()),
            Err(s) => {
                assert(sync_failed(e@, s@) == sync_failed(e@, s@));
                "write indx: ".to_owned().concat(e.as_str()).concat(
                    "; the INDX rollback was written but syncing it failed (",
                ).concat(s.as_str()).concat(") — run chkdsk")
            },
        },
    }
}

/// Writes the pieces of a block. Where one of them fails, all that were touched
/// are rewritten from `raw`.
fn write_block<T: BlockIo + ?Sized>(
    io: &mut T,
    list: &[MappedChunk],
    data: &[u8],
    raw: &[u8],
) -> (res: Result<(), String>)
    requires
        chunks::laid_out(list@, data@.len() as int),
        data@.len() == raw@.len(),
        chunks::gathered(block_io::contents(&*old(io)), list@, raw@),
    ensures
        (*final(io)).byte_count() == (*old(io)).byte_count(),
        block_write_came_out(
            block_io::contents(&*old(io)),
            block_io::contents(&*final(io)),
            list@,
            data@,
            (*old(io)).faults(),
            (*final(io)).faults(),
            res,
        ),
{
    let ghost before = block_io::contents(&*old(io));
    match write_chunks(io, list, list.len(), data) {
        Ok(_) => {
            let done = io.sync();
            assert(bitmap::all_written(before, block_io::contents(&*io), list@, data@));
            done
        },
        Err((k, e)) => {
            let ghost torn = block_io::contents(&*io);
            let ghost reason = e@;
            let ghost first = (*old(io)).faults();
            let ghost between = (*io).faults();
            let m: String = undo_block(io, list, k, raw, e);
            let ghost now = block_io::contents(&*io);
            let ghost last = (*io).faults();
            proof {
                let whole = forall|p: int|
                    #[trigger] now(p) == chunks::scattered(torn, list@, raw@, k + 1, p);
                if whole {
                    assert forall|p: int| !chunks::in_chunks(list@, k + 1, p) implies #[trigger] now(
                        p,
                    ) == torn(p) by {
                        chunks::lemma_scatter_keeps(torn, list@, raw@, k + 1, p);
                    }
                }
                lemma_block_restored(before, torn, now, list@, data@, raw@, k as int, whole);
                if not_put_back(between, last, 1, reason, m@) {
                    let n = choose|n: int|
                        n >= 1 && #[trigger] bitmap::writes_failed(between, last, n);
                    assert(bitmap::writes_failed(first, last, n + 1));
                }
                let got: Result<(), String> = Err(m);
                assert(got->Err_0 == m);
                assert(undone(before, now, list@, first, last, reason, got->Err_0@));
                assert(exists|e: Seq<char>|
                    #[trigger] undone(before, now, list@, first, last, e, got->Err_0@));
            }
            Err(m)
        },
    }
}

proof fn lemma_block_restored(
    before: spec_fn(int) -> u8,
    torn: spec_fn(int) -> u8,
    now: spec_fn(int) -> u8,
    ch: Seq<MappedChunk>,
    data: Seq<u8>,
    raw: Seq<u8>,
    k: int,
    whole: bool,
)
    requires
        0 <= k < ch.len(),
        chunks::laid_out(ch, raw.len() as int),
        chunks::gathered(before, ch, raw),
        forall|p: int|
            !chunks::in_chunk(ch[k], p) ==> #[trigger] torn(p) == chunks::scattered(
                before,
                ch,
                data,
                k,
                p,
            ),
        forall|p: int| !chunks::in_chunks(ch, k + 1, p) ==> #[trigger] now(p) == torn(p),
        whole ==> forall|p: int|
            #[trigger] now(p) == chunks::scattered(torn, ch, raw, k + 1, p),
    ensures
        bitmap::only_these_changed(before, now, ch),
        whole ==> forall|p: int| #[trigger] now(p) == before(p),
{
    assert forall|p: int| !chunks::in_chunks(ch, k + 1, p) implies #[trigger] now(p) == before(
        p,
    ) by {
        assert(torn(p) == chunks::scattered(before, ch, data, k, p));
        chunks::lemma_not_in_fewer(ch, k + 1, k, p);
        chunks::lemma_scatter_keeps(before, ch, data, k, p);
    }
    assert forall|p: int| !chunks::in_chunks(ch, ch.len() as int, p) implies #[trigger] now(p)
        == before(p) by {
        chunks::lemma_not_in_fewer(ch, ch.len() as int, k + 1, p);
    }
    if whole {
        assert forall|p: int| #[trigger] now(p) == before(p) by {
            chunks::lemma_scatter_restores(before, torn, ch, raw, k + 1, p);
        }
    }
}

/// What an update did whose change, asked for on the clean block, gave `r` and
/// left `changed`.
pub open spec fn update_came_out(
    before: spec_fn(int) -> u8,
    now: spec_fn(int) -> u8,
    ch: Seq<MappedChunk>,
    bps: u16,
    changed: Seq<u8>,
    r: Result<(), String>,
    faults_before: Option<Faults>,
    faults_now: Option<Faults>,
    res: Result<(), String>,
) -> bool {
    let unchanged = faults_now == faults_before && forall|p: int| #[trigger] now(p) == before(p);
    match r {
        Err(e) => unchanged && (res matches Err(m) && m@ == e@),
        Ok(_) => match mft_io::fixed_on_write(changed, bps as int, indx_magic()) {
            Err(w) => unchanged && (res matches Err(m) && m@ == w),
            Ok(data) => block_write_came_out(
                before,
                now,
                ch,
                data,
                faults_before,
                faults_now,
                res,
            ),
        },
    }
}

/// Reads the block at `vcn`, changes it and writes it back. `mutate` sees the
/// block with its sectors put right.
pub fn update_indx_block_io<T, F>(io: &mut T, ia: &IndexAllocation, vcn: u64, mutate: F) -> (res:
    Result<(), String>) where T: BlockIo + ?Sized, F: FnOnce(&mut [u8]) -> Result<(), String>
    requires
        forall|x: &mut [u8]| (*x)@.len() == ia.block_size ==> call_requires(mutate, (x,)),
        forall|x: &mut [u8], r: Result<(), String>|
            #[trigger] call_ensures(mutate, (x,), r) ==> (*final(x))@.len() == (*x)@.len(),
    ensures
        (*final(io)).byte_count() == (*old(io)).byte_count(),
        match block_mapped(ia, vcn, (*old(io)).byte_count()) {
            Err(w) => {
                &&& block_io::same_bytes(&*final(io), &*old(io))
                &&& (*final(io)).faults() == (*old(io)).faults()
                &&& res matches Err(m) && m@ == w
            },
            Ok(ch) => {
                let before = block_io::contents(&*old(io));
                let raw = chunks::collected(before, ch, ia.block_size as int);
                let bps = ia.params.bytes_per_sector;
                let same = block_io::same_bytes(&*final(io), &*old(io));
                let quiet = (*final(io)).faults() == (*old(io)).faults();
                ||| same && (res matches Err(m) && read_failed(
                    m@,
                    (*old(io)).faults(),
                    (*final(io)).faults(),
                ))
                ||| match mft_io::fixed_on_read(raw, bps as int, indx_magic()) {
                    Err(w) => same && quiet && (res matches Err(m) && m@ == w),
                    Ok(clean) => exists|x: &mut [u8], r: Result<(), String>|
                        (*x)@ == clean && #[trigger] call_ensures(mutate, (x,), r)
                            && update_came_out(
                            before,
                            block_io::contents(&*final(io)),
                            ch,
                            bps,
                            (*final(x))@,
                            r,
                            (*old(io)).faults(),
                            (*final(io)).faults(),
                            res,
                        ),
                }
            },
        },
{
    let (raw, list) = match read_raw_indx_block_io(io, ia, vcn) {
        Ok((raw, list)) => (raw, list),
        Err(m) => {
            return Err(m);
        },
    };
    let ghost before = block_io::contents(&*old(io));
    let magic: [u8; 4] = [0x49, 0x4E, 0x44, 0x58];
    proof {
        assert(magic@ =~= indx_magic());
        assert(block_io::contents(&*io) =~= before);
        chunks::lemma_gathered_is_collected(before, list@, raw@);
    }
    let mut block: Vec<u8> = raw.clone();
    assert(block@ =~= raw@);
    match apply_fixup_on_read_magic(block.as_mut_slice(), ia.params.bytes_per_sector, &magic) {
        Ok(_) => {},
        Err(m) => {
            return Err(m);
        },
    }
    let ghost clean = block@;
    assert(clean.len() == ia.block_size);
    let changed = mutate(block.as_mut_slice());
    match changed {
        Ok(_) => {},
        Err(m) => {
            return Err(m);
        },
    }
    match apply_fixup_on_write_magic(block.as_mut_slice(), ia.params.bytes_per_sector, &magic) {
        Ok(_) => {},
        Err(m) => {
            return Err(m);
        },
    }
    write_block(io, list.as_slice(), block.as_slice(), raw.as_slice())
}

/// A block that was changed and written reads back as it was changed, but for
/// its update sequence array, and nothing else on the device changed. Where the
/// device counts what fails, and nothing did, the update succeeded.
pub proof fn lemma_update_reads_back(
    ia: &IndexAllocation,
    vcn: u64,
    device_bytes: u64,
    before: spec_fn(int) -> u8,
    now: spec_fn(int) -> u8,
    changed: Seq<u8>,
    faults_before: Option<Faults>,
    faults_now: Option<Faults>,
    res: Result<(), String>,
)
    requires
        block_mapped(ia, vcn, device_bytes) is Ok,
        chunks::disjoint(block_mapped(ia, vcn, device_bytes)->Ok_0),
        changed.len() == ia.block_size,
        mft_io::fixed_on_write(
            changed,
            ia.params.bytes_per_sector as int,
            indx_magic(),
        ) is Ok,
        update_came_out(
            before,
            now,
            block_mapped(ia, vcn, device_bytes)->Ok_0,
            ia.params.bytes_per_sector,
            changed,
            Ok(()),
            faults_before,
            faults_now,
            res,
        ),
    ensures
        faults_before is Some && faults_now == faults_before ==> res is Ok,
        res is Ok ==> {
            let ch = block_mapped(ia, vcn, device_bytes)->Ok_0;
            let raw = chunks::collected(now, ch, ia.block_size as int);
            &&& forall|p: int|
                !chunks::in_chunks(ch, ch.len() as int, p) ==> #[trigger] now(p) == before(p)
            &&& match block_read(raw, vcn, ch[0].disk_offset, ia.params.bytes_per_sector) {
                Ok(got) => {
                    let usa = mft_io::usa_offset(changed);
                    &&& got.len() == changed.len()
                    &&& forall|i: int|
                        0 <= i < changed.len() && !(usa <= i < usa + 2 * mft_io::usa_count(
                            changed,
                        )) ==> #[trigger] got[i] == changed[i]
                },
                Err(_) => false,
            }
        },
{
    let bps = ia.params.bytes_per_sector as int;
    let ch = block_mapped(ia, vcn, device_bytes)->Ok_0;
    let data = mft_io::fixed_on_write(changed, bps, indx_magic())->Ok_0;
    if res is Ok {
        lemma_block_mapped(ia, vcn, device_bytes);
        assert(data.len() == changed.len());
        chunks::lemma_written_is_read_back(before, now, ch, data);
        chunks::lemma_gathered_is_collected(now, ch, data);
        mft_io::lemma_fixup_round_trip(changed, bps, indx_magic());
        assert forall|p: int|
            !chunks::in_chunks(ch, ch.len() as int, p) implies #[trigger] now(p) == before(p) by {
            chunks::lemma_scatter_keeps(before, ch, data, ch.len() as int, p);
        }
    }
}

} // verus!
