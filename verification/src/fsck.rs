//! Recovery of volumes that were not closed.
//!
//! Two writes are what such a volume needs to be mounted again: the dirty flag of
//! `$Volume` is cleared, and `$LogFile` is filled with `0xFF`, which says that no
//! transaction is pending. Nothing is replayed.
//!
//! Both are bounded and located in advance: the caller finds the attributes and
//! hands in where they are.

use vstd::prelude::*;

use crate::block_io;
use crate::block_io::{BlockIo, Bytes, Faults};
use crate::bytes;
use crate::bytes::{get_u16, put_u16};
use crate::mft_io;

use ntfs::structured_values::NtfsVolumeFlags;

verus! {

/// Offset of the flags within the value of `$VOLUME_INFORMATION`.
pub const VOLUME_FLAGS_OFFSET: u64 = 10;

/// Offset of the value's offset within the header of a resident attribute.
pub const RESIDENT_ATTR_VALUE_OFFSET_FIELD: u64 = 0x14;

/// What an empty `$LogFile` is filled with.
pub const LOGFILE_EMPTY_FILL: u8 = 0xFF;

/// The bytes of `$LogFile` that are overwritten at a time.
pub const LOGFILE_CHUNK: usize = 65536;

/// Positioned reads and writes, for the recovery of a volume. Implementors serve
/// them from whatever holds it.
///
/// A device is a byte for every offset and a size. Nothing here says when an
/// operation succeeds. A read leaves the device as it is; a write that fails may
/// have changed any of the bytes that it was to write, and no others. A device may
/// keep count of what failed.
pub trait FsckIo {
    /// The byte at `at`. Where a device says nothing of its contents, they are
    /// anything.
    closed spec fn byte_at(&self, at: int) -> u8 {
        arbitrary()
    }

    /// The size of the device in bytes.
    closed spec fn byte_count(&self) -> u64 {
        arbitrary()
    }

    /// What failed so far, where the device keeps count of it.
    closed spec fn faults(&self) -> Option<Faults> {
        arbitrary()
    }

    /// Fills `buf` with the bytes from `offset` on.
    fn read_exact_at(&mut self, offset: u64, buf: &mut [u8]) -> (res: Result<(), String>)
        ensures
            final(buf)@.len() == old(buf)@.len(),
            final(self).byte_count() == old(self).byte_count(),
            final(self).faults() == block_io::after_read(old(self).faults(), res),
            forall|i: int| #[trigger] final(self).byte_at(i) == old(self).byte_at(i),
            res is Ok ==> forall|i: int|
                0 <= i < old(buf)@.len() ==> #[trigger] final(buf)@[i] == old(self).byte_at(
                    offset + i,
                ),
    ;

    /// Writes `buf` over the bytes from `offset` on.
    fn write_all_at(&mut self, offset: u64, buf: &[u8]) -> (res: Result<(), String>)
        ensures
            final(self).byte_count() == old(self).byte_count(),
            final(self).faults() == block_io::after_write(old(self).faults(), res),
            forall|i: int|
                !(offset <= i < offset + buf@.len()) ==> #[trigger] final(self).byte_at(i) == old(
                    self,
                ).byte_at(i),
            res is Ok ==> forall|i: int|
                offset <= i < offset + buf@.len() ==> #[trigger] final(self).byte_at(i) == buf@[i
                    - offset],
    ;

    /// The size of the device in bytes.
    fn size(&self) -> (n: u64)
        ensures
            n == self.byte_count(),
    ;

    /// Flushes pending writes to stable storage. Where the host does that on its
    /// own, there is nothing to do.
    fn sync(&mut self) -> (res: Result<(), String>)
        ensures
            final(self).byte_count() == old(self).byte_count(),
            final(self).faults() == block_io::after_sync(old(self).faults(), res),
            forall|i: int| #[trigger] final(self).byte_at(i) == old(self).byte_at(i),
    {
        Ok(())
    }
}

impl FsckIo for Bytes {
    open spec fn byte_at(&self, at: int) -> u8 {
        BlockIo::byte_at(self, at)
    }

    open spec fn byte_count(&self) -> u64 {
        BlockIo::byte_count(self)
    }

    open spec fn faults(&self) -> Option<Faults> {
        BlockIo::faults(self)
    }

    fn read_exact_at(&mut self, offset: u64, buf: &mut [u8]) -> (res: Result<(), String>) {
        BlockIo::read_exact_at(self, offset, buf)
    }

    fn write_all_at(&mut self, offset: u64, buf: &[u8]) -> (res: Result<(), String>) {
        BlockIo::write_all_at(self, offset, buf)
    }

    fn size(&self) -> (n: u64) {
        BlockIo::size(self)
    }
}

/// The contents of a device.
pub open spec fn contents<T: FsckIo>(io: &T) -> spec_fn(int) -> u8 {
    |i: int| io.byte_at(i)
}

/// The two devices hold the same bytes.
pub open spec fn same_bytes<T: FsckIo>(a: &T, b: &T) -> bool {
    forall|i: int| #[trigger] a.byte_at(i) == b.byte_at(i)
}

/// The 16 bits at `at`.
pub open spec fn word_at(c: spec_fn(int) -> u8, at: int) -> int {
    c(at) + 256 * c(at + 1)
}

/// Where the volume's flags are, given where the header of
/// `$VOLUME_INFORMATION` is.
pub open spec fn flags_place(c: spec_fn(int) -> u8, attr: int) -> int {
    attr + word_at(c, attr + RESIDENT_ATTR_VALUE_OFFSET_FIELD) + VOLUME_FLAGS_OFFSET
}

/// The dirty flag of the volume is set.
pub open spec fn dirty(c: spec_fn(int) -> u8, attr: int) -> bool {
    word_at(c, flags_place(c, attr)) % 2 == 1
}

/// `ntfs::structured_values::NtfsVolumeFlags::from_bits_truncate` and
/// `contains`: whether `IS_DIRTY` is among the flags. The crate defines
/// `IS_DIRTY` as the least significant bit, and truncation drops only bits that
/// it does not define.
#[verifier::external_body]
fn is_dirty_flag(flags: u16) -> (b: bool)
    ensures
        b == (flags % 2 == 1),
{
    NtfsVolumeFlags::from_bits_truncate(flags).contains(NtfsVolumeFlags::IS_DIRTY)
}

/// `ntfs::structured_values::NtfsVolumeFlags::IS_DIRTY.bits()`: the crate defines
/// the flag as `0x0001`.
#[verifier::external_body]
fn dirty_bit() -> (b: u16)
    ensures
        b == 1,
{
    NtfsVolumeFlags::IS_DIRTY.bits()
}

fn read_u16_le_io<T: FsckIo>(io: &mut T, offset: u64) -> (res: Result<u16, String>)
    ensures
        final(io).byte_count() == old(io).byte_count(),
        same_bytes(final(io), old(io)),
        match res {
            Ok(v) => {
                &&& v == word_at(contents(old(io)), offset as int)
                &&& final(io).faults() == old(io).faults()
            },
            Err(_) => block_io::read_fault(old(io).faults(), final(io).faults()),
        },
{
    let mut buf: Vec<u8> = vec![0u8; 2];
    match io.read_exact_at(offset, buf.as_mut_slice()) {
        Ok(_) => {},
        Err(e) => {
            return Err(e);
        },
    }
    let ghost c = contents(old(io));
    assert(buf@[0] == c(offset + 0) && buf@[1] == c(offset + 1));
    Ok(get_u16(buf.as_slice(), 0))
}

/// A read of the flags failed, and `m` says which.
pub open spec fn flags_read_failed(
    m: Seq<char>,
    faults_before: Option<Faults>,
    faults_now: Option<Faults>,
) -> bool {
    &&& block_io::read_fault(faults_before, faults_now)
    &&& {
        ||| exists|e: Seq<char>| m == #[trigger] ("read value_offset: "@ + e)
        ||| exists|e: Seq<char>| m == #[trigger] ("read volume flags: "@ + e)
    }
}

/// The position of the header of `$VOLUME_INFORMATION` leaves room for the
/// value that it names.
pub open spec fn attr_fits(attr: Result<u64, String>) -> bool {
    attr matches Ok(p) ==> p + 0x1_0010 <= u64::MAX
}

/// Finds the volume's flags, given where the header of `$VOLUME_INFORMATION`
/// is: where they are, and what they are.
fn locate_volume_flags_io<T: FsckIo>(io: &mut T, attr: Result<u64, String>) -> (res: Result<
    (u64, u16),
    String,
>)
    requires
        attr_fits(attr),
    ensures
        final(io).byte_count() == old(io).byte_count(),
        same_bytes(final(io), old(io)),
        match attr {
            Err(e) => final(io).faults() == old(io).faults() && (res matches Err(m) && m@ == e@),
            Ok(p) => match res {
                Ok((place, flags)) => {
                    &&& final(io).faults() == old(io).faults()
                    &&& place == flags_place(contents(old(io)), p as int)
                    &&& flags == word_at(contents(old(io)), place as int)
                    &&& place + 2 <= u64::MAX
                },
                Err(m) => flags_read_failed(m@, old(io).faults(), final(io).faults()),
            },
        },
{
    let attr_pos: u64 = match attr {
        Ok(p) => p,
        Err(e) => {
            return Err(e);
        },
    };
    let ghost c = contents(old(io));
    let value_offset: u16 = match read_u16_le_io(io, attr_pos + RESIDENT_ATTR_VALUE_OFFSET_FIELD) {
        Ok(v) => v,
        Err(e) => {
            assert("read value_offset: "@ + e@ == "read value_offset: "@ + e@);
            return Err("read value_offset: ".to_owned().concat(e.as_str()));
        },
    };
    let place: u64 = attr_pos + value_offset as u64 + VOLUME_FLAGS_OFFSET;
    let ghost now = contents(&*io);
    assert(now =~= c);
    match read_u16_le_io(io, place) {
        Ok(flags) => Ok((place, flags)),
        Err(e) => {
            assert("read volume flags: "@ + e@ == "read volume flags: "@ + e@);
            Err("read volume flags: ".to_owned().concat(e.as_str()))
        },
    }
}

/// Whether the volume's dirty flag is set, given where the header of
/// `$VOLUME_INFORMATION` is.
pub fn is_dirty_io<T: FsckIo>(io: &mut T, attr: Result<u64, String>) -> (res: Result<bool, String>)
    requires
        attr_fits(attr),
    ensures
        final(io).byte_count() == old(io).byte_count(),
        same_bytes(final(io), old(io)),
        match attr {
            Err(e) => final(io).faults() == old(io).faults() && (res matches Err(m) && m@ == e@),
            Ok(p) => match res {
                Ok(b) => {
                    &&& b == dirty(contents(old(io)), p as int)
                    &&& final(io).faults() == old(io).faults()
                },
                Err(m) => flags_read_failed(m@, old(io).faults(), final(io).faults()),
            },
        },
{
    match locate_volume_flags_io(io, attr) {
        Ok((_, flags)) => Ok(is_dirty_flag(flags)),
        Err(m) => Err(m),
    }
}

/// The device with the dirty flag of the volume cleared.
pub open spec fn flag_cleared(before: spec_fn(int) -> u8, now: spec_fn(int) -> u8, attr: int) -> bool {
    let place = flags_place(before, attr);
    let word = bytes::bytes16(word_at(before, place) - 1);
    forall|i: int|
        #[trigger] now(i) == if place <= i < place + 2 {
            word[i - place]
        } else {
            before(i)
        }
}

/// The flags with the dirty flag cleared, where it is set.
pub fn cleared(flags: u16) -> (r: Option<u16>)
    ensures
        r == if flags % 2 == 1 {
            Some((flags - 1) as u16)
        } else {
            None
        },
{
    if !is_dirty_flag(flags) {
        return None;
    }
    let bit: u16 = dirty_bit();
    assert(flags & !bit == flags - 1) by (bit_vector)
        requires
            flags % 2 == 1,
            bit == 1,
    ;
    Some(flags & !bit)
}

/// What clearing the dirty flag did.
pub open spec fn clear_came_out(
    before: spec_fn(int) -> u8,
    now: spec_fn(int) -> u8,
    attr: Result<u64, String>,
    faults_before: Option<Faults>,
    faults_now: Option<Faults>,
    res: Result<bool, String>,
) -> bool {
    let unchanged = forall|i: int| #[trigger] now(i) == before(i);
    match attr {
        Err(e) => unchanged && faults_now == faults_before && (res matches Err(m) && m@ == e@),
        Ok(p) => match res {
            Ok(cleared) => {
                &&& faults_now == faults_before
                &&& cleared == dirty(before, p as int)
                &&& if cleared {
                    flag_cleared(before, now, p as int)
                } else {
                    unchanged
                }
            },
            Err(m) => {
                let place = flags_place(before, p as int);
                ||| unchanged && flags_read_failed(m@, faults_before, faults_now)
                ||| {
                    &&& dirty(before, p as int)
                    &&& faults_now == block_io::more_faults(faults_before, 0, 1, 0)
                    &&& exists|e: Seq<char>| m@ == #[trigger] ("write volume flags: "@ + e)
                    &&& forall|i: int|
                        !(place <= i < place + 2) ==> #[trigger] now(i) == before(i)
                }
                ||| {
                    &&& dirty(before, p as int)
                    &&& faults_now == block_io::more_faults(faults_before, 0, 0, 1)
                    &&& flag_cleared(before, now, p as int)
                    &&& exists|e: Seq<char>| m@ == #[trigger] ("fsync: "@ + e)
                }
            },
        },
    }
}

/// Clears the volume's dirty flag, given where the header of
/// `$VOLUME_INFORMATION` is. `true` where it was set.
pub fn clear_dirty_io<T: FsckIo>(io: &mut T, attr: Result<u64, String>) -> (res: Result<
    bool,
    String,
>)
    requires
        attr_fits(attr),
    ensures
        final(io).byte_count() == old(io).byte_count(),
        clear_came_out(
            contents(old(io)),
            contents(final(io)),
            attr,
            old(io).faults(),
            final(io).faults(),
            res,
        ),
{
    let ghost c = contents(old(io));
    let (place, flags) = match locate_volume_flags_io(io, attr) {
        Ok((place, flags)) => (place, flags),
        Err(m) => {
            return Err(m);
        },
    };
    let new_flags: u16 = match cleared(flags) {
        Some(v) => v,
        None => {
            return Ok(false);
        },
    };
    let mut buf: Vec<u8> = vec![0u8; 2];
    put_u16(buf.as_mut_slice(), 0, new_flags);
    proof {
        assert(buf@ =~= bytes::bytes16(new_flags as int));
    }
    let ghost between = contents(&*io);
    match io.write_all_at(place, buf.as_slice()) {
        Ok(_) => {},
        Err(e) => {
            assert("write volume flags: "@ + e@ == "write volume flags: "@ + e@);
            assert(forall|i: int| #[trigger] between(i) == c(i));
            return Err("write volume flags: ".to_owned().concat(e.as_str()));
        },
    }
    let ghost written = contents(&*io);
    proof {
        assert(forall|i: int| #[trigger] between(i) == c(i));
        assert(flag_cleared(c, written, attr->Ok_0 as int));
    }
    match io.sync() {
        Ok(_) => {
            assert(forall|i: int| #[trigger] contents(&*io)(i) == written(i));
            Ok(true)
        },
        Err(e) => {
            assert("fsync: "@ + e@ == "fsync: "@ + e@);
            assert(forall|i: int| #[trigger] contents(&*io)(i) == written(i));
            Err("fsync: ".to_owned().concat(e.as_str()))
        },
    }
}

/// A volume whose dirty flag was cleared is not dirty. That holds wherever the
/// flags are: one byte of them changes, and where that would be a byte of the
/// field that says where they are, the flag was not set.
pub proof fn lemma_cleared_is_clean(before: spec_fn(int) -> u8, now: spec_fn(int) -> u8, attr: int)
    requires
        dirty(before, attr),
        flag_cleared(before, now, attr),
    ensures
        !dirty(now, attr),
{
    let field = attr + RESIDENT_ATTR_VALUE_OFFSET_FIELD;
    let place = flags_place(before, attr);
    let word = bytes::bytes16(word_at(before, place) - 1);
    assert(before(place) as int % 2 == 1);
    assert(word[0] == before(place) - 1 && word[1] == before(place + 1));
    assert(now(place) == word[0] && now(place + 1) == word[1]);
    assert(now(field) == before(field) && now(field + 1) == before(field + 1));
    assert(flags_place(now, attr) == place);
}

/// Where the data of `$LogFile` is, given the position of its first run and its
/// length.
pub fn logfile_extent(position: Option<u64>, length: u64) -> (res: Result<(u64, u64), String>)
    ensures
        match res {
            Ok((at, n)) => position == Some(at) && n == length && length > 0,
            Err(m) => if position is None {
                m@ == "$LogFile $DATA has no first-run position"@
            } else {
                length == 0 && m@ == "$LogFile $DATA has zero length"@
            },
        },
{
    match position {
        None => Err("$LogFile $DATA has no first-run position".to_owned()),
        Some(at) => {
            if length == 0 {
                Err("$LogFile $DATA has zero length".to_owned())
            } else {
                Ok((at, length))
            }
        },
    }
}

/// The device with `n` bytes from `at` on as those of an empty log.
pub open spec fn log_emptied(
    before: spec_fn(int) -> u8,
    now: spec_fn(int) -> u8,
    at: int,
    n: int,
) -> bool {
    forall|i: int|
        #[trigger] now(i) == if at <= i < at + n {
            LOGFILE_EMPTY_FILL
        } else {
            before(i)
        }
}

/// One thing that a listener is told: the phase, what of it is done, and its
/// total.
pub type Step = (Seq<char>, u64, u64);

/// Told of the progress of a recovery.
///
/// A listener is the list of what it was told. Telling it something adds that to
/// the list.
pub trait Progress {
    /// What the listener was told, in order. Where a listener says nothing of
    /// it, it is anything.
    closed spec fn told(&self) -> Seq<Step> {
        arbitrary()
    }

    /// Tells the listener that `done` of the `total` of a phase are done.
    fn tell(&mut self, phase: &str, done: u64, total: u64)
        ensures
            final(self).told() == old(self).told().push((phase@, done, total)),
    ;
}

/// A listener that keeps what it is told.
pub struct Steps {
    pub list: Vec<(String, u64, u64)>,
}

impl Progress for Steps {
    open spec fn told(&self) -> Seq<Step> {
        Seq::new(
            self.list@.len(),
            |i: int| (self.list@[i].0@, self.list@[i].1, self.list@[i].2),
        )
    }

    fn tell(&mut self, phase: &str, done: u64, total: u64) {
        self.list.push((phase.to_owned(), done, total));
        assert(self.told() =~= old(self).told().push((phase@, done, total)));
    }
}

/// What the listener was told, where there is one.
pub open spec fn heard<P: Progress>(progress: Option<P>) -> Option<Seq<Step>> {
    match progress {
        Some(p) => Some(p.told()),
        None => None,
    }
}

/// The listener, where there is one, was told `steps` and nothing else.
pub open spec fn told_more(
    before: Option<Seq<Step>>,
    now: Option<Seq<Step>>,
    steps: Seq<Step>,
) -> bool {
    now == match before {
        Some(list) => Some(list + steps),
        None => None,
    }
}

/// The pieces in which a log of `n` bytes is overwritten.
pub open spec fn log_pieces(n: int) -> int {
    mft_io::ceil_div(n, LOGFILE_CHUNK as int)
}

/// The bytes of a log of `n` that its first `k` pieces hold.
pub open spec fn piece_end(n: int, k: int) -> int {
    if LOGFILE_CHUNK * k < n {
        LOGFILE_CHUNK * k
    } else {
        n
    }
}

/// What is told of overwriting a log of `n` bytes up to the end of its first `k`
/// pieces: the start, and then the end of each piece.
pub open spec fn log_steps(n: u64, k: int) -> Seq<Step> {
    Seq::new(
        (k + 1) as nat,
        |i: int| ("reset_logfile"@, piece_end(n as int, i) as u64, n),
    )
}

/// The first `k` pieces of the log were overwritten and told of, and the next
/// one may have been written in part.
pub open spec fn stopped_behind(
    before: spec_fn(int) -> u8,
    now: spec_fn(int) -> u8,
    at: u64,
    n: u64,
    heard_before: Option<Seq<Step>>,
    heard_now: Option<Seq<Step>>,
    k: int,
) -> bool {
    &&& 0 <= k < log_pieces(n as int)
    &&& told_more(heard_before, heard_now, log_steps(n, k))
    &&& forall|i: int|
        at <= i < at + piece_end(n as int, k) ==> #[trigger] now(i) == LOGFILE_EMPTY_FILL
    &&& forall|i: int|
        !(at <= i < at + piece_end(n as int, k + 1)) ==> #[trigger] now(i) == before(i)
}

/// What overwriting `$LogFile` did, and what was told of it.
pub open spec fn reset_came_out(
    before: spec_fn(int) -> u8,
    now: spec_fn(int) -> u8,
    located: Result<(u64, u64), String>,
    heard_before: Option<Seq<Step>>,
    heard_now: Option<Seq<Step>>,
    faults_before: Option<Faults>,
    faults_now: Option<Faults>,
    res: Result<u64, String>,
) -> bool {
    match located {
        Err(e) => {
            &&& forall|i: int| #[trigger] now(i) == before(i)
            &&& heard_now == heard_before
            &&& faults_now == faults_before
            &&& res matches Err(m) && m@ == e@
        },
        Ok((at, n)) => {
            let whole = log_emptied(before, now, at as int, n as int) && told_more(
                heard_before,
                heard_now,
                log_steps(n, log_pieces(n as int)),
            );
            match res {
                Ok(k) => k == n && whole && faults_now == faults_before,
                Err(m) => {
                    ||| {
                        &&& faults_now == block_io::more_faults(faults_before, 0, 1, 0)
                        &&& exists|e: Seq<char>| m@ == #[trigger] ("write logfile: "@ + e)
                        &&& exists|k: int|
                            #[trigger] stopped_behind(
                                before,
                                now,
                                at,
                                n,
                                heard_before,
                                heard_now,
                                k,
                            )
                    }
                    ||| {
                        &&& faults_now == block_io::more_faults(faults_before, 0, 0, 1)
                        &&& exists|e: Seq<char>| m@ == #[trigger] ("fsync: "@ + e)
                        &&& whole
                    }
                },
            }
        },
    }
}

/// What is told before the flag is cleared.
pub open spec fn flag_begun() -> Seq<Step> {
    seq![("clear_dirty"@, 0u64, 1u64)]
}

/// What is told in all where the flag was cleared.
pub open spec fn flag_done() -> Seq<Step> {
    seq![("clear_dirty"@, 0u64, 1u64), ("clear_dirty"@, 1u64, 1u64)]
}

fn report<P: Progress>(progress: &mut Option<P>, phase: &str, done: u64, total: u64)
    ensures
        told_more(heard(*old(progress)), heard(*final(progress)), seq![(phase@, done, total)]),
{
    let ghost before = heard(*old(progress));
    if let Some(p) = progress {
        p.tell(phase, done, total);
        assert(p.told() =~= before->0 + seq![(phase@, done, total)]);
    }
}

/// Overwrites `$LogFile`, given where its data is, and gives the number of bytes.
/// `progress` is told of the phase, the bytes that are done and their total: at
/// the start, and behind every piece.
pub fn reset_logfile_io<T: FsckIo, P: Progress>(
    io: &mut T,
    located: Result<(u64, u64), String>,
    progress: &mut Option<P>,
) -> (res: Result<u64, String>)
    requires
        located matches Ok((at, n)) ==> at + n <= u64::MAX,
    ensures
        final(io).byte_count() == old(io).byte_count(),
        reset_came_out(
            contents(old(io)),
            contents(final(io)),
            located,
            heard(*old(progress)),
            heard(*final(progress)),
            old(io).faults(),
            final(io).faults(),
            res,
        ),
{
    let ghost c = contents(old(io));
    let ghost first = heard(*old(progress));
    let (at, size) = match located {
        Ok((at, size)) => (at, size),
        Err(e) => {
            return Err(e);
        },
    };
    report(progress, "reset_logfile", 0, size);
    assert(log_steps(size, 0) =~= seq![("reset_logfile"@, 0u64, size)]);
    let buf: Vec<u8> = vec![LOGFILE_EMPTY_FILL; LOGFILE_CHUNK];
    let mut written: u64 = 0;
    let ghost mut pieces: int = 0;
    while written < size
        invariant
            located == Ok::<(u64, u64), String>((at, size)),
            at + size <= u64::MAX,
            0 <= pieces,
            written == piece_end(size as int, pieces),
            written < size ==> pieces < log_pieces(size as int),
            written == size ==> pieces == log_pieces(size as int),
            buf@.len() == LOGFILE_CHUNK,
            forall|k: int| 0 <= k < LOGFILE_CHUNK ==> #[trigger] buf@[k] == LOGFILE_EMPTY_FILL,
            c == contents(old(io)),
            io.byte_count() == old(io).byte_count(),
            io.faults() == old(io).faults(),
            log_emptied(c, contents(&*io), at as int, written as int),
            first == heard(*old(progress)),
            told_more(first, heard(*progress), log_steps(size, pieces)),
        decreases size - written,
    {
        let n: usize = if size - written < LOGFILE_CHUNK as u64 {
            (size - written) as usize
        } else {
            LOGFILE_CHUNK
        };
        let ghost now = contents(&*io);
        assert(written + n == piece_end(size as int, pieces + 1));
        match io.write_all_at(at + written, &buf.as_slice()[0..n]) {
            Ok(_) => {},
            Err(e) => {
                assert("write logfile: "@ + e@ == "write logfile: "@ + e@);
                assert(forall|i: int|
                    !(at + written <= i < at + written + n) ==> #[trigger] contents(&*io)(i) == now(
                        i,
                    ));
                assert(stopped_behind(
                    c,
                    contents(&*io),
                    at,
                    size,
                    first,
                    heard(*progress),
                    pieces,
                ));
                return Err("write logfile: ".to_owned().concat(e.as_str()));
            },
        }
        proof {
            assert(forall|i: int|
                !(at + written <= i < at + written + n) ==> #[trigger] contents(&*io)(i) == now(
                    i,
                ));
        }
        written = written + n as u64;
        report(progress, "reset_logfile", written, size);
        proof {
            let step = seq![("reset_logfile"@, written, size)];
            assert(log_steps(size, pieces) + step =~= log_steps(size, pieces + 1));
            if let Some(list) = first {
                assert(list + log_steps(size, pieces) + step =~= list + log_steps(
                    size,
                    pieces + 1,
                ));
            }
            pieces = pieces + 1;
        }
    }
    let ghost done = contents(&*io);
    match io.sync() {
        Ok(_) => {
            assert(forall|i: int| #[trigger] contents(&*io)(i) == done(i));
            Ok(size)
        },
        Err(e) => {
            assert("fsync: "@ + e@ == "fsync: "@ + e@);
            assert(forall|i: int| #[trigger] contents(&*io)(i) == done(i));
            Err("fsync: ".to_owned().concat(e.as_str()))
        },
    }
}

/// What a recovery did.
#[derive(Debug, Clone, Copy)]
pub struct FsckReport {
    pub logfile_bytes: u64,
    pub dirty_cleared: bool,
}

/// The device with the log emptied.
pub open spec fn with_empty_log(before: spec_fn(int) -> u8, at: int, n: int) -> spec_fn(
    int,
) -> u8 {
    |i: int|
        if at <= i < at + n {
            LOGFILE_EMPTY_FILL
        } else {
            before(i)
        }
}

/// What a recovery did, and what was told of it: the log came first.
pub open spec fn recovery_came_out(
    before: spec_fn(int) -> u8,
    now: spec_fn(int) -> u8,
    located: Result<(u64, u64), String>,
    attr: Result<u64, String>,
    heard_before: Option<Seq<Step>>,
    heard_now: Option<Seq<Step>>,
    faults_before: Option<Faults>,
    faults_now: Option<Faults>,
    res: Result<FsckReport, String>,
) -> bool {
    match (located, res) {
        (Err(_), Ok(_)) => false,
        (Err(_), Err(m)) => reset_came_out(
            before,
            now,
            located,
            heard_before,
            heard_now,
            faults_before,
            faults_now,
            Err(m),
        ),
        (Ok((at, n)), Ok(r)) => {
            &&& r.logfile_bytes == n
            &&& clear_came_out(
                with_empty_log(before, at as int, n as int),
                now,
                attr,
                faults_before,
                faults_now,
                Ok(r.dirty_cleared),
            )
            &&& told_more(
                heard_before,
                heard_now,
                log_steps(n, log_pieces(n as int)) + flag_done(),
            )
        },
        (Ok((at, n)), Err(m)) => {
            ||| reset_came_out(
                before,
                now,
                located,
                heard_before,
                heard_now,
                faults_before,
                faults_now,
                Err(m),
            )
            ||| {
                &&& clear_came_out(
                    with_empty_log(before, at as int, n as int),
                    now,
                    attr,
                    faults_before,
                    faults_now,
                    Err(m),
                )
                &&& told_more(
                    heard_before,
                    heard_now,
                    log_steps(n, log_pieces(n as int)) + flag_begun(),
                )
            }
        },
    }
}

/// Recovers a volume, given where the data of `$LogFile` and the header of
/// `$VOLUME_INFORMATION` are. The log comes first: a volume that is not dirty
/// must not have an old log.
pub fn fsck_io<T: FsckIo, P: Progress>(
    io: &mut T,
    located: Result<(u64, u64), String>,
    attr: Result<u64, String>,
    progress: &mut Option<P>,
) -> (res: Result<FsckReport, String>)
    requires
        located matches Ok((at, n)) ==> at + n <= u64::MAX,
        attr_fits(attr),
    ensures
        final(io).byte_count() == old(io).byte_count(),
        recovery_came_out(
            contents(old(io)),
            contents(final(io)),
            located,
            attr,
            heard(*old(progress)),
            heard(*final(progress)),
            old(io).faults(),
            final(io).faults(),
            res,
        ),
{
    let ghost first = heard(*old(progress));
    let ghost size = located->Ok_0.1;
    let ghost steps = log_steps(size, log_pieces(size as int));
    let logfile_bytes: u64 = match reset_logfile_io(io, located, progress) {
        Ok(n) => n,
        Err(m) => {
            return Err(m);
        },
    };
    proof {
        let (at, n) = located->Ok_0;
        assert(contents(&*io) =~= with_empty_log(contents(old(io)), at as int, n as int));
    }
    report(progress, "clear_dirty", 0, 1);
    proof {
        if let Some(list) = first {
            assert(list + steps + flag_begun() =~= list + (steps + flag_begun()));
        }
    }
    let dirty_cleared: bool = match clear_dirty_io(io, attr) {
        Ok(v) => v,
        Err(m) => {
            return Err(m);
        },
    };
    report(progress, "clear_dirty", 1, 1);
    proof {
        let last = seq![("clear_dirty"@, 1u64, 1u64)];
        if let Some(list) = first {
            assert(list + (steps + flag_begun()) + last =~= list + (steps + flag_done()));
        }
    }
    Ok(FsckReport { logfile_bytes, dirty_cleared })
}

} // verus!
