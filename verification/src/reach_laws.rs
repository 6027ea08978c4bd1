//! What can be reached on a volume: every byte that the runs put on it.

use vstd::prelude::*;

use crate::bitmap;
use crate::bitmap::BitmapLocation;
use crate::chunks;
use crate::data_runs;
use crate::data_runs::DataRun;
use crate::idx_block;
use crate::idx_block::IndexAllocation;
use crate::mft_io;
use crate::mft_io::BootParams;

verus! {

/// The byte is in a run that is on disk, and its place is before `limit`.
pub open spec fn is_within(runs: Seq<DataRun>, cluster_size: int, b: int, limit: int) -> bool {
    &&& data_runs::covering_run(runs, b / cluster_size) matches Some(run) && run.lcn is Some
    &&& chunks::place(runs, cluster_size, b) < limit
}

/// Every run ends where 64 bits can count the bytes.
pub open spec fn ends_are_counted(runs: Seq<DataRun>, cluster_size: int) -> bool {
    forall|i: int|
        0 <= i < runs.len() ==> ((#[trigger] runs[i]).starting_vcn + runs[i].length) * cluster_size
            <= u64::MAX
}

proof fn lemma_covering_run_is_one(runs: Seq<DataRun>, cluster_size: int, vcn: int)
    requires
        ends_are_counted(runs, cluster_size),
    ensures
        data_runs::covering_run(runs, vcn) matches Some(run) ==> (run.starting_vcn + run.length)
            * cluster_size <= u64::MAX,
    decreases runs.len(),
{
    if runs.len() > 0 {
        assert((runs[0].starting_vcn + runs[0].length) * cluster_size <= u64::MAX);
        let rest = runs.skip(1);
        assert(ends_are_counted(rest, cluster_size)) by {
            assert forall|i: int| 0 <= i < rest.len() implies ((#[trigger] rest[i]).starting_vcn
                + rest[i].length) * cluster_size <= u64::MAX by {
                assert(rest[i] == runs[i + 1]);
            }
        }
        lemma_covering_run_is_one(rest, cluster_size, vcn);
    }
}

/// One step along the runs: the rest of the run that a byte is in, or as much of it
/// as is asked for, can be transferred.
proof fn lemma_piece_is_within(
    params: BootParams,
    runs: Seq<DataRun>,
    at: int,
    n: int,
    device_bytes: u64,
)
    requires
        params.cluster_size > 0,
        data_runs::contiguous_from(runs, 0),
        0 <= at,
        0 < n <= u64::MAX,
        ({
            let cs = params.cluster_size as int;
            let run = data_runs::covering_run(runs, at / cs);
            &&& run is Some
            &&& run->0.lcn is Some
            &&& at + n <= (run->0.starting_vcn + run->0.length) * cs
            &&& is_within(
                runs,
                cs,
                at + n - 1,
                mft_io::transfer_limit(params, device_bytes as int),
            )
        }),
    ensures
        ({
            let cs = params.cluster_size as int;
            let run = data_runs::covering_run(runs, at / cs)->0;
            mft_io::span(
                params,
                run.lcn->0,
                (at / cs - run.starting_vcn) as u64,
                (at % cs) as u64,
                n as u64,
                device_bytes,
            ) is Ok
        }),
{
    let cs = params.cluster_size as int;
    let run = data_runs::covering_run(runs, at / cs)->0;
    data_runs::lemma_covering_run_covers(runs, at / cs);
    vstd::arithmetic::div_mod::lemma_mod_bound(at, cs);
    chunks::lemma_place_in_run(runs, cs, run, at, n - 1);
}

proof fn lemma_run_goes_past(runs: Seq<DataRun>, cs: int, at: int)
    requires
        cs > 0,
        0 <= at,
        data_runs::covering_run(runs, at / cs) is Some,
    ensures
        ({
            let run = data_runs::covering_run(runs, at / cs)->0;
            at < (run.starting_vcn + run.length) * cs
        }),
{
    let run = data_runs::covering_run(runs, at / cs)->0;
    data_runs::lemma_covering_run_covers(runs, at / cs);
    vstd::arithmetic::div_mod::lemma_fundamental_div_mod(at, cs);
    vstd::arithmetic::div_mod::lemma_mod_bound(at, cs);
    let stop = run.starting_vcn + run.length;
    let q = at / cs;
    assert(at < stop * cs) by (nonlinear_arith)
        requires
            at == cs * q + at % cs,
            at % cs < cs,
            q < stop,
            cs > 0,
    ;
}

/// A range of the bitmap can be reached where each of its bytes is in a run that
/// is on the volume.
pub proof fn lemma_bitmap_can_be_reached(bm: &BitmapLocation, start: int, len: int)
    requires
        bm.well_formed(),
        0 <= start,
        0 <= len,
        start + len <= u64::MAX,
        ends_are_counted(bm.runs@, bm.params.cluster_size as int),
        forall|b: int|
            start <= b < start + len ==> #[trigger] is_within(
                bm.runs@,
                bm.params.cluster_size as int,
                b,
                mft_io::transfer_limit(bm.params, u64::MAX as int),
            ),
    ensures
        bitmap::mapped(bm, start, len) is Ok,
{
    lemma_bitmap_from(bm, start, start + len, 0);
}

proof fn lemma_bitmap_from(bm: &BitmapLocation, at: int, end: int, cursor: int)
    requires
        bm.well_formed(),
        0 <= at,
        end <= u64::MAX,
        ends_are_counted(bm.runs@, bm.params.cluster_size as int),
        forall|b: int|
            at <= b < end ==> #[trigger] is_within(
                bm.runs@,
                bm.params.cluster_size as int,
                b,
                mft_io::transfer_limit(bm.params, u64::MAX as int),
            ),
    ensures
        bitmap::mapped_from(bm, at, end, cursor) is Ok,
    decreases end - at,
{
    if at < end {
        let cs = bm.params.cluster_size as int;
        let limit = mft_io::transfer_limit(bm.params, u64::MAX as int);
        assert(is_within(bm.runs@, cs, at, limit));
        let run = data_runs::covering_run(bm.runs@, at / cs)->0;
        lemma_covering_run_is_one(bm.runs@, cs, at / cs);
        lemma_run_goes_past(bm.runs@, cs, at);
        let run_end = (run.starting_vcn + run.length) * cs;
        let n = if run_end < end {
            run_end - at
        } else {
            end - at
        };
        assert(is_within(bm.runs@, cs, at + n - 1, limit));
        lemma_piece_is_within(bm.params, bm.runs@, at, n, u64::MAX);
        lemma_bitmap_from(bm, at + n, end, cursor + n);
    }
}

/// A block of an index can be reached where it is inside the data and each of its
/// bytes is in a run that is on the volume and on the device.
pub proof fn lemma_block_can_be_reached(ia: &IndexAllocation, vcn: u64, device_bytes: u64)
    requires
        data_runs::contiguous_from(ia.runs@, 0),
        ia.params.cluster_size > 0,
        0 < ia.block_size <= usize::MAX,
        vcn * ia.params.cluster_size + ia.block_size <= ia.data_length,
        ends_are_counted(ia.runs@, ia.params.cluster_size as int),
        forall|b: int|
            vcn * ia.params.cluster_size <= b < vcn * ia.params.cluster_size + ia.block_size
                ==> #[trigger] is_within(
                ia.runs@,
                ia.params.cluster_size as int,
                b,
                mft_io::transfer_limit(ia.params, device_bytes as int),
            ),
    ensures
        idx_block::block_mapped(ia, vcn, device_bytes) is Ok,
{
    lemma_block_from(ia, vcn, 0, device_bytes);
}

proof fn lemma_block_from(ia: &IndexAllocation, vcn: u64, cursor: int, device_bytes: u64)
    requires
        data_runs::contiguous_from(ia.runs@, 0),
        ia.params.cluster_size > 0,
        0 <= cursor,
        ia.block_size <= usize::MAX,
        vcn * ia.params.cluster_size + ia.block_size <= ia.data_length,
        ends_are_counted(ia.runs@, ia.params.cluster_size as int),
        forall|b: int|
            vcn * ia.params.cluster_size <= b < vcn * ia.params.cluster_size + ia.block_size
                ==> #[trigger] is_within(
                ia.runs@,
                ia.params.cluster_size as int,
                b,
                mft_io::transfer_limit(ia.params, device_bytes as int),
            ),
    ensures
        idx_block::block_mapped_from(ia, vcn, cursor, device_bytes) is Ok,
    decreases ia.block_size - cursor,
{
    if cursor < ia.block_size {
        let cs = ia.params.cluster_size as int;
        let limit = mft_io::transfer_limit(ia.params, device_bytes as int);
        let from = vcn * cs;
        let at = from + cursor;
        let cluster = vcn + cursor / cs;
        let byte = cursor % cs;
        vstd::arithmetic::div_mod::lemma_mod_bound(cursor, cs);
        vstd::arithmetic::div_mod::lemma_div_pos_is_pos(cursor, cs);
        vstd::arithmetic::div_mod::lemma_fundamental_div_mod(cursor, cs);
        assert(at == cluster * cs + byte && 0 <= from) by (nonlinear_arith)
            requires
                at == vcn * cs + cursor,
                from == vcn * cs,
                cluster == vcn + cursor / cs,
                cursor == cs * (cursor / cs) + byte,
                cs > 0,
        ;
        vstd::arithmetic::div_mod::lemma_fundamental_div_mod_converse(at, cs, cluster, byte);
        assert(is_within(ia.runs@, cs, at, limit));
        let run = data_runs::covering_run(ia.runs@, cluster)->0;
        data_runs::lemma_covering_run_covers(ia.runs@, cluster);
        lemma_covering_run_is_one(ia.runs@, cs, cluster);
        lemma_run_goes_past(ia.runs@, cs, at);
        let stop = run.starting_vcn + run.length;
        let in_run = (stop - cluster) * cs;
        assert(in_run == stop * cs - cluster * cs && 0 <= cluster * cs) by (nonlinear_arith)
            requires
                in_run == (stop - cluster) * cs,
                cluster >= 0,
                cs > 0,
        ;
        let n = if in_run - byte < ia.block_size - cursor {
            in_run - byte
        } else {
            ia.block_size - cursor
        };
        assert(n > 0);
        assert(is_within(ia.runs@, cs, at + n - 1, limit));
        lemma_piece_is_within(ia.params, ia.runs@, at, n, device_bytes);
        lemma_block_from(ia, vcn, cursor + n, device_bytes);
    }
}

} // verus!
