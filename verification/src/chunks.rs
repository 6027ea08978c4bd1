//! Transfers of one buffer from and to several places on a device.
//!
//! Bytes that follow one another in an attribute need not do so on disk: each
//! run of clusters that they cross makes a piece of its own.

use vstd::prelude::*;

use crate::block_io;
use crate::block_io::BlockIo;
use crate::data_runs;
use crate::data_runs::DataRun;

verus! {

/// A piece of a buffer, and where it is on disk.
#[derive(Debug, Clone, Copy)]
pub struct MappedChunk {
    /// Byte offset on the device.
    pub disk_offset: u64,
    /// Offset of the piece within the buffer.
    pub cursor: usize,
    /// Length in bytes.
    pub len: usize,
}

/// The end of the first `k` pieces, laid one behind the other.
pub open spec fn end_of(chunks: Seq<MappedChunk>, k: int) -> int
    decreases k,
{
    if k <= 0 {
        0
    } else {
        end_of(chunks, k - 1) + chunks[k - 1].len
    }
}

/// Piece `k` is not empty and begins where those before it end.
pub open spec fn laid_at(chunks: Seq<MappedChunk>, k: int) -> bool {
    &&& chunks[k].len > 0
    &&& chunks[k].cursor == end_of(chunks, k)
    &&& chunks[k].disk_offset + chunks[k].len <= u64::MAX
}

/// The pieces make up a buffer of `n` bytes, one behind the other.
pub open spec fn laid_out(chunks: Seq<MappedChunk>, n: int) -> bool {
    &&& forall|k: int| 0 <= k < chunks.len() ==> #[trigger] laid_at(chunks, k)
    &&& end_of(chunks, chunks.len() as int) == n
}

pub proof fn lemma_end_grows(chunks: Seq<MappedChunk>, i: int, j: int)
    requires
        0 <= i <= j <= chunks.len(),
    ensures
        0 <= end_of(chunks, i) <= end_of(chunks, j),
        i < j ==> end_of(chunks, i) + chunks[i].len <= end_of(chunks, j),
    decreases j,
{
    if i < j {
        lemma_end_grows(chunks, i, j - 1);
    } else if i > 0 {
        lemma_end_grows(chunks, i - 1, j - 1);
    }
}

/// The ends of the pieces, with one more in front.
pub(crate) proof fn lemma_end_of_cons(first: MappedChunk, rest: Seq<MappedChunk>, k: int)
    requires
        0 <= k <= rest.len(),
    ensures
        end_of(seq![first] + rest, k + 1) == first.len + end_of(rest, k),
    decreases k,
{
    if k > 0 {
        lemma_end_of_cons(first, rest, k - 1);
        assert((seq![first] + rest)[k] == rest[k - 1]);
    } else {
        reveal_with_fuel(end_of, 2);
    }
}

/// Every byte of the buffer is in one of the pieces.
pub(crate) proof fn lemma_piece_of(chunks: Seq<MappedChunk>, n: int, j: int) -> (k: int)
    requires
        laid_out(chunks, n),
        0 <= j < n,
    ensures
        0 <= k < chunks.len(),
        chunks[k].cursor <= j < chunks[k].cursor + chunks[k].len,
{
    lemma_piece_among(chunks, chunks.len() as int, j)
}

proof fn lemma_piece_among(chunks: Seq<MappedChunk>, count: int, j: int) -> (k: int)
    requires
        0 <= count <= chunks.len(),
        forall|k: int| 0 <= k < chunks.len() ==> #[trigger] laid_at(chunks, k),
        0 <= j < end_of(chunks, count),
    ensures
        0 <= k < count,
        chunks[k].cursor <= j < chunks[k].cursor + chunks[k].len,
    decreases count,
{
    if count <= 0 {
        0
    } else {
        assert(laid_at(chunks, count - 1));
        if j >= end_of(chunks, count - 1) {
            count - 1
        } else {
            lemma_piece_among(chunks, count - 1, j)
        }
    }
}

/// `p` is in piece `c` on disk.
pub open spec fn in_chunk(c: MappedChunk, p: int) -> bool {
    c.disk_offset <= p < c.disk_offset + c.len
}

/// `p` is in one of the first `k` pieces on disk.
pub open spec fn in_chunks(chunks: Seq<MappedChunk>, k: int, p: int) -> bool
    decreases k,
{
    k > 0 && (in_chunk(chunks[k - 1], p) || in_chunks(chunks, k - 1, p))
}

/// Piece `k` of `buf` is what the device holds there.
pub open spec fn gathered_at(
    c: spec_fn(int) -> u8,
    chunks: Seq<MappedChunk>,
    buf: Seq<u8>,
    k: int,
) -> bool {
    forall|j: int|
        chunks[k].cursor <= j < chunks[k].cursor + chunks[k].len ==> #[trigger] buf[j] == c(
            chunks[k].disk_offset + (j - chunks[k].cursor),
        )
}

/// `buf` is what the device holds at the pieces' places.
pub open spec fn gathered(
    c: spec_fn(int) -> u8,
    chunks: Seq<MappedChunk>,
    buf: Seq<u8>,
) -> bool {
    forall|k: int| 0 <= k < chunks.len() ==> #[trigger] gathered_at(c, chunks, buf, k)
}

/// Where byte `j` of the buffer is on disk, in the last of the first `k` pieces
/// that holds it.
pub open spec fn position(chunks: Seq<MappedChunk>, k: int, j: int) -> int
    decreases k,
{
    if k <= 0 {
        0
    } else if chunks[k - 1].cursor <= j < chunks[k - 1].cursor + chunks[k - 1].len {
        chunks[k - 1].disk_offset + (j - chunks[k - 1].cursor)
    } else {
        position(chunks, k - 1, j)
    }
}

/// The `n` bytes that the device holds at the pieces' places.
pub open spec fn collected(c: spec_fn(int) -> u8, chunks: Seq<MappedChunk>, n: int) -> Seq<u8> {
    Seq::new(n as nat, |j: int| c(position(chunks, chunks.len() as int, j)))
}

proof fn lemma_position(chunks: Seq<MappedChunk>, n: int, count: int, k: int, j: int)
    requires
        laid_out(chunks, n),
        0 <= k < count <= chunks.len(),
        chunks[k].cursor <= j < chunks[k].cursor + chunks[k].len,
    ensures
        position(chunks, count, j) == chunks[k].disk_offset + (j - chunks[k].cursor),
    decreases count,
{
    assert(laid_at(chunks, k));
    assert(laid_at(chunks, count - 1));
    if k < count - 1 {
        lemma_end_grows(chunks, k, count - 1);
        lemma_position(chunks, n, count - 1, k, j);
    }
}

/// What is gathered is what the device holds there.
pub proof fn lemma_gathered_is_collected(
    c: spec_fn(int) -> u8,
    chunks: Seq<MappedChunk>,
    buf: Seq<u8>,
)
    requires
        laid_out(chunks, buf.len() as int),
    ensures
        gathered(c, chunks, buf) <==> buf == collected(c, chunks, buf.len() as int),
{
    let n = buf.len() as int;
    if gathered(c, chunks, buf) {
        assert forall|j: int| 0 <= j < n implies buf[j] == collected(c, chunks, n)[j] by {
            let k = lemma_piece_of(chunks, n, j);
            assert(gathered_at(c, chunks, buf, k));
            lemma_position(chunks, n, chunks.len() as int, k, j);
        }
        assert(buf =~= collected(c, chunks, n));
    }
    if buf == collected(c, chunks, n) {
        assert forall|k: int| 0 <= k < chunks.len() implies #[trigger] gathered_at(
            c,
            chunks,
            buf,
            k,
        ) by {
            assert(laid_at(chunks, k));
            lemma_end_grows(chunks, k, chunks.len() as int);
            assert forall|j: int|
                chunks[k].cursor <= j < chunks[k].cursor + chunks[k].len implies #[trigger] buf[j]
                == c(chunks[k].disk_offset + (j - chunks[k].cursor)) by {
                lemma_position(chunks, n, chunks.len() as int, k, j);
            }
        }
    }
}

/// No byte of the device is in two pieces.
pub open spec fn disjoint(chunks: Seq<MappedChunk>) -> bool {
    forall|i: int, k: int, p: int|
        0 <= i < k < chunks.len() && #[trigger] in_chunk(chunks[i], p) ==> !#[trigger] in_chunk(
            chunks[k],
            p,
        )
}

/// A read gives back what a write wrote.
pub proof fn lemma_written_is_read_back(
    before: spec_fn(int) -> u8,
    now: spec_fn(int) -> u8,
    chunks: Seq<MappedChunk>,
    buf: Seq<u8>,
)
    requires
        laid_out(chunks, buf.len() as int),
        disjoint(chunks),
        forall|p: int|
            #[trigger] now(p) == scattered(before, chunks, buf, chunks.len() as int, p),
    ensures
        gathered(now, chunks, buf),
{
    assert forall|k: int| 0 <= k < chunks.len() implies #[trigger] gathered_at(
        now,
        chunks,
        buf,
        k,
    ) by {
        assert forall|j: int|
            chunks[k].cursor <= j < chunks[k].cursor + chunks[k].len implies #[trigger] buf[j]
            == now(chunks[k].disk_offset + (j - chunks[k].cursor)) by {
            let p = chunks[k].disk_offset + (j - chunks[k].cursor);
            lemma_scattered_in(before, chunks, buf, chunks.len() as int, k, p);
        }
    }
}

proof fn lemma_scattered_in(
    c: spec_fn(int) -> u8,
    chunks: Seq<MappedChunk>,
    buf: Seq<u8>,
    count: int,
    k: int,
    p: int,
)
    requires
        disjoint(chunks),
        0 <= k < count <= chunks.len(),
        in_chunk(chunks[k], p),
    ensures
        scattered(c, chunks, buf, count, p) == buf[chunks[k].cursor + (p - chunks[k].disk_offset)],
    decreases count,
{
    if k < count - 1 {
        assert(!in_chunk(chunks[count - 1], p));
        lemma_scattered_in(c, chunks, buf, count - 1, k, p);
    }
}

/// The device after the first `k` pieces of `buf` were written, one after the
/// other.
pub open spec fn scattered(
    c: spec_fn(int) -> u8,
    chunks: Seq<MappedChunk>,
    buf: Seq<u8>,
    k: int,
    p: int,
) -> u8
    decreases k,
{
    if k <= 0 {
        c(p)
    } else if in_chunk(chunks[k - 1], p) {
        buf[chunks[k - 1].cursor + (p - chunks[k - 1].disk_offset)]
    } else {
        scattered(c, chunks, buf, k - 1, p)
    }
}

/// A write changes nothing outside its pieces.
pub proof fn lemma_scatter_keeps(
    c: spec_fn(int) -> u8,
    chunks: Seq<MappedChunk>,
    buf: Seq<u8>,
    k: int,
    p: int,
)
    requires
        !in_chunks(chunks, k, p),
    ensures
        scattered(c, chunks, buf, k, p) == c(p),
    decreases k,
{
    if k > 0 {
        lemma_scatter_keeps(c, chunks, buf, k - 1, p);
    }
}

/// What is written does not depend on what was there.
pub(crate) proof fn lemma_scatter_same(
    a: spec_fn(int) -> u8,
    b: spec_fn(int) -> u8,
    chunks: Seq<MappedChunk>,
    buf: Seq<u8>,
    k: int,
    p: int,
)
    requires
        in_chunks(chunks, k, p) || a(p) == b(p),
    ensures
        scattered(a, chunks, buf, k, p) == scattered(b, chunks, buf, k, p),
    decreases k,
{
    if k > 0 && !in_chunk(chunks[k - 1], p) {
        lemma_scatter_same(a, b, chunks, buf, k - 1, p);
    }
}

pub(crate) proof fn lemma_not_in_fewer(chunks: Seq<MappedChunk>, many: int, few: int, p: int)
    requires
        few <= many,
        !in_chunks(chunks, many, p),
    ensures
        !in_chunks(chunks, few, p),
    decreases many,
{
    if few < many && many > 0 {
        lemma_not_in_fewer(chunks, many - 1, few, p);
    }
}

/// Writing back what the device held restores it, at every piece that is
/// written back.
pub proof fn lemma_scatter_restores(
    before: spec_fn(int) -> u8,
    now: spec_fn(int) -> u8,
    chunks: Seq<MappedChunk>,
    previous: Seq<u8>,
    k: int,
    p: int,
)
    requires
        gathered(before, chunks, previous),
        0 <= k <= chunks.len(),
        laid_out(chunks, previous.len() as int),
    ensures
        scattered(now, chunks, previous, k, p) == if in_chunks(chunks, k, p) {
            before(p)
        } else {
            now(p)
        },
    decreases k,
{
    if k > 0 {
        lemma_scatter_restores(before, now, chunks, previous, k - 1, p);
        if in_chunk(chunks[k - 1], p) {
            assert(gathered_at(before, chunks, previous, k - 1));
            let j = chunks[k - 1].cursor + (p - chunks[k - 1].disk_offset);
            assert(previous[j] == before(p));
        }
    }
}

/// Reads the pieces into a buffer of `n` bytes.
pub(crate) fn read_chunks<T: BlockIo + ?Sized>(
    io: &mut T,
    chunks: &[MappedChunk],
    n: usize,
    label: &str,
) -> (res: Result<Vec<u8>, String>)
    requires
        laid_out(chunks@, n as int),
    ensures
        (*final(io)).byte_count() == (*old(io)).byte_count(),
        block_io::same_bytes(&*final(io), &*old(io)),
        match res {
            Ok(v) => {
                &&& v@.len() == n
                &&& gathered(block_io::contents(&*old(io)), chunks@, v@)
                &&& (*final(io)).faults() == (*old(io)).faults()
            },
            Err(m) => {
                &&& chunks@.len() > 0
                &&& exists|e: Seq<char>| m@ == #[trigger] (label@ + e)
                &&& block_io::read_fault((*old(io)).faults(), (*final(io)).faults())
            },
        },
{
    let mut out: Vec<u8> = vec![0u8; n];
    let mut k: usize = 0;
    let ghost c = block_io::contents(&*old(io));
    while k < chunks.len()
        invariant
            laid_out(chunks@, n as int),
            k <= chunks.len(),
            out@.len() == n,
            c == block_io::contents(&*old(io)),
            (*io).byte_count() == (*old(io)).byte_count(),
            block_io::same_bytes(&*io, &*old(io)),
            (*io).faults() == (*old(io)).faults(),
            forall|i: int| 0 <= i < k ==> #[trigger] gathered_at(c, chunks@, out@, i),
        decreases chunks.len() - k,
    {
        let chunk = chunks[k];
        let ghost before = out@;
        proof {
            assert(laid_at(chunks@, k as int));
            lemma_end_grows(chunks@, k as int, chunks@.len() as int);
        }
        let (front, rest) = out.as_mut_slice().split_at_mut(chunk.cursor);
        let (mid, back) = rest.split_at_mut(chunk.len);
        match io.read_exact_at(chunk.disk_offset, mid) {
            Ok(_) => {},
            Err(e) => {
                assert(label@ + e@ == label@ + e@);
                return Err(label.to_owned().concat(e.as_str()));
            },
        }
        proof {
            assert forall|i: int| 0 <= i < k implies #[trigger] gathered_at(
                c,
                chunks@,
                out@,
                i,
            ) by {
                assert(gathered_at(c, chunks@, before, i));
                assert(laid_at(chunks@, i));
                lemma_end_grows(chunks@, i, k as int);
            }
            assert(gathered_at(c, chunks@, out@, k as int));
        }
        k = k + 1;
    }
    Ok(out)
}

/// Writes the first `count` pieces of a buffer. Where a write fails, gives the
/// piece and the reason; the pieces before it have been written.
pub(crate) fn write_chunks<T: BlockIo + ?Sized>(
    io: &mut T,
    chunks: &[MappedChunk],
    count: usize,
    data: &[u8],
) -> (res: Result<(), (usize, String)>)
    requires
        laid_out(chunks@, data@.len() as int),
        count <= chunks.len(),
    ensures
        (*final(io)).byte_count() == (*old(io)).byte_count(),
        (*final(io)).faults() == if res is Ok {
            (*old(io)).faults()
        } else {
            block_io::more_faults((*old(io)).faults(), 0, 1, 0)
        },
        match res {
            Ok(_) => forall|p: int|
                #[trigger] (*final(io)).byte_at(p) == scattered(
                    block_io::contents(&*old(io)),
                    chunks@,
                    data@,
                    count as int,
                    p,
                ),
            Err((k, _)) => {
                &&& k < count
                &&& forall|p: int|
                    !in_chunk(chunks@[k as int], p) ==> #[trigger] (*final(io)).byte_at(p)
                        == scattered(
                        block_io::contents(&*old(io)),
                        chunks@,
                        data@,
                        k as int,
                        p,
                    )
            },
        },
{
    let mut k: usize = 0;
    let ghost c = block_io::contents(&*old(io));
    while k < count
        invariant
            laid_out(chunks@, data@.len() as int),
            k <= count <= chunks.len(),
            c == block_io::contents(&*old(io)),
            (*io).byte_count() == (*old(io)).byte_count(),
            (*io).faults() == (*old(io)).faults(),
            forall|p: int|
                #[trigger] (*io).byte_at(p) == scattered(c, chunks@, data@, k as int, p),
        decreases count - k,
    {
        let chunk = chunks[k];
        proof {
            assert(laid_at(chunks@, k as int));
            lemma_end_grows(chunks@, k as int, chunks@.len() as int);
        }
        let size: usize = data.len();
        match io.write_all_at(chunk.disk_offset, &data[chunk.cursor..chunk.cursor + chunk.len]) {
            Ok(_) => {},
            Err(e) => {
                return Err((k, e));
            },
        }
        k = k + 1;
    }
    Ok(())
}

/// Where byte `b` of an attribute with these runs is on disk, where a run covers
/// it and is no hole.
pub open spec fn place(runs: Seq<DataRun>, cluster_size: int, b: int) -> int {
    match data_runs::covering_run(runs, b / cluster_size) {
        Some(run) => (run.lcn->0 + (b / cluster_size - run.starting_vcn)) * cluster_size + b
            % cluster_size,
        None => 0,
    }
}

/// Piece `k` holds the bytes of the attribute from `from` on that it stands
/// for.
pub open spec fn placed_at(
    runs: Seq<DataRun>,
    cluster_size: int,
    from: int,
    chunks: Seq<MappedChunk>,
    k: int,
) -> bool {
    forall|j: int|
        chunks[k].cursor <= j < chunks[k].cursor + chunks[k].len ==> #[trigger] place(
            runs,
            cluster_size,
            from + j,
        ) == chunks[k].disk_offset + (j - chunks[k].cursor)
}

/// The pieces hold the bytes of the attribute from `from` on.
pub open spec fn placed(
    runs: Seq<DataRun>,
    cluster_size: int,
    from: int,
    chunks: Seq<MappedChunk>,
) -> bool {
    forall|k: int|
        0 <= k < chunks.len() ==> #[trigger] placed_at(runs, cluster_size, from, chunks, k)
}

/// Bytes of one run that follow one another do so on disk.
pub(crate) proof fn lemma_place_in_run(
    runs: Seq<DataRun>,
    cluster_size: int,
    run: DataRun,
    at: int,
    j: int,
)
    requires
        cluster_size > 0,
        data_runs::contiguous_from(runs, 0),
        0 <= at,
        data_runs::covering_run(runs, at / cluster_size) == Some(run),
        data_runs::covers(run, at / cluster_size),
        run.lcn is Some,
        0 <= j,
        at + j < (run.starting_vcn + run.length) * cluster_size,
    ensures
        place(runs, cluster_size, at + j) == (run.lcn->0 + (at / cluster_size - run.starting_vcn))
            * cluster_size + at % cluster_size + j,
{
    let cs = cluster_size;
    let b = at + j;
    let start = run.starting_vcn as int;
    let stop = start + run.length;
    let lcn = run.lcn->0 as int;
    vstd::arithmetic::div_mod::lemma_fundamental_div_mod(at, cs);
    vstd::arithmetic::div_mod::lemma_fundamental_div_mod(b, cs);
    vstd::arithmetic::div_mod::lemma_div_is_ordered(at, b, cs);
    let q = b / cs;
    assert(q < stop) by (nonlinear_arith)
        requires
            b == cs * q + b % cs,
            0 <= b % cs,
            b < stop * cs,
            cs > 0,
    ;
    data_runs::lemma_covering_run_is_the_only(runs, 0, at / cs, q);
    let p = at / cs;
    assert((lcn + (q - start)) * cs - (lcn + (p - start)) * cs == cs * q - cs * p)
        by (nonlinear_arith);
}

/// Writes the first `count` pieces of a buffer, all of them whatever happens.
/// Gives the first failure.
pub(crate) fn write_all_chunks<T: BlockIo + ?Sized>(
    io: &mut T,
    chunks: &[MappedChunk],
    count: usize,
    data: &[u8],
) -> (failure: Option<String>)
    requires
        laid_out(chunks@, data@.len() as int),
        count <= chunks.len(),
    ensures
        (*final(io)).byte_count() == (*old(io)).byte_count(),
        if failure is None {
            (*final(io)).faults() == (*old(io)).faults()
        } else {
            exists|n: int|
                n >= 1 && (*final(io)).faults() == #[trigger] block_io::more_faults(
                    (*old(io)).faults(),
                    0,
                    n,
                    0,
                )
        },
        forall|p: int|
            !in_chunks(chunks@, count as int, p) ==> #[trigger] (*final(io)).byte_at(p) == (*old(
                io,
            )).byte_at(p),
        failure is None ==> forall|p: int|
            #[trigger] (*final(io)).byte_at(p) == scattered(
                block_io::contents(&*old(io)),
                chunks@,
                data@,
                count as int,
                p,
            ),
{
    let mut failure: Option<String> = None;
    let ghost mut failed: int = 0;
    let mut k: usize = 0;
    let ghost c = block_io::contents(&*old(io));
    while k < count
        invariant
            laid_out(chunks@, data@.len() as int),
            k <= count <= chunks.len(),
            c == block_io::contents(&*old(io)),
            (*io).byte_count() == (*old(io)).byte_count(),
            failed >= 0,
            (*io).faults() == block_io::more_faults((*old(io)).faults(), 0, failed, 0),
            failure is None <==> failed == 0,
            forall|p: int|
                !in_chunks(chunks@, k as int, p) ==> #[trigger] (*io).byte_at(p) == (*old(
                    io,
                )).byte_at(p),
            failure is None ==> forall|p: int|
                #[trigger] (*io).byte_at(p) == scattered(c, chunks@, data@, k as int, p),
        decreases count - k,
    {
        let chunk = chunks[k];
        proof {
            assert(laid_at(chunks@, k as int));
            lemma_end_grows(chunks@, k as int, chunks@.len() as int);
        }
        let size: usize = data.len();
        match io.write_all_at(chunk.disk_offset, &data[chunk.cursor..chunk.cursor + chunk.len]) {
            Ok(_) => {},
            Err(e) => {
                proof {
                    failed = failed + 1;
                }
                if failure.is_none() {
                    failure = Some(e);
                }
            },
        }
        k = k + 1;
    }
    failure
}

} // verus!
