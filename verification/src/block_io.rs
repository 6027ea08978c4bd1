//! Positioned I/O on whatever holds a volume.

use vstd::prelude::*;

use crate::text;
use crate::text::decimal;

verus! {

/// How many operations of a device failed, by their kind.
pub struct Faults {
    pub reads: int,
    pub writes: int,
    pub syncs: int,
}

/// A count with so many failed reads, writes and flushes more.
pub open spec fn more_faults(
    count: Option<Faults>,
    reads: int,
    writes: int,
    syncs: int,
) -> Option<Faults> {
    match count {
        Some(f) => Some(
            Faults {
                reads: f.reads + reads,
                writes: f.writes + writes,
                syncs: f.syncs + syncs,
            },
        ),
        None => None,
    }
}

/// The count after a read that came out so.
pub open spec fn after_read(count: Option<Faults>, res: Result<(), String>) -> Option<Faults> {
    match res {
        Ok(_) => count,
        Err(_) => more_faults(count, 1, 0, 0),
    }
}

/// The count after a write that came out so.
pub open spec fn after_write(count: Option<Faults>, res: Result<(), String>) -> Option<Faults> {
    match res {
        Ok(_) => count,
        Err(_) => more_faults(count, 0, 1, 0),
    }
}

/// The count after a flush that came out so.
pub open spec fn after_sync(count: Option<Faults>, res: Result<(), String>) -> Option<Faults> {
    match res {
        Ok(_) => count,
        Err(_) => more_faults(count, 0, 0, 1),
    }
}

/// A count in which one read more has failed.
pub open spec fn read_fault(before: Option<Faults>, now: Option<Faults>) -> bool {
    now == more_faults(before, 1, 0, 0)
}

/// Positioned reads and writes. Implementors serve them from a file, a block
/// device or a buffer.
///
/// A device is a byte for every offset and a size. Nothing here says when an
/// operation succeeds; what it does is said for both outcomes. A read leaves
/// the device as it is. A write that fails may have changed any of the bytes
/// that it was to write, and no others. A device may keep count of what failed,
/// and then says truly of each operation whether it did.
pub trait BlockIo {
    /// The byte at `at`. Where a device says nothing of its contents, they are
    /// anything.
    closed spec fn byte_at(&self, at: int) -> u8 {
        arbitrary()
    }

    /// The size of the device in bytes.
    closed spec fn byte_count(&self) -> u64 {
        arbitrary()
    }

    /// What failed so far, where the device keeps count of it.
    closed spec fn faults(&self) -> Option<Faults> {
        arbitrary()
    }

    /// Fills `buf` with the bytes from `offset` on.
    fn read_exact_at(&mut self, offset: u64, buf: &mut [u8]) -> (res: Result<(), String>)
        ensures
            final(buf)@.len() == old(buf)@.len(),
            (*final(self)).faults() == after_read((*old(self)).faults(), res),
            (*final(self)).byte_count() == (*old(self)).byte_count(),
            forall|i: int| #[trigger] (*final(self)).byte_at(i) == (*old(self)).byte_at(i),
            res is Ok ==> forall|i: int|
                0 <= i < old(buf)@.len() ==> #[trigger] final(buf)@[i] == (*old(self)).byte_at(
                    offset + i,
                ),
    ;

    /// Writes `buf` over the bytes from `offset` on.
    fn write_all_at(&mut self, offset: u64, buf: &[u8]) -> (res: Result<(), String>)
        ensures
            (*final(self)).byte_count() == (*old(self)).byte_count(),
            (*final(self)).faults() == after_write((*old(self)).faults(), res),
            forall|i: int|
                !(offset <= i < offset + buf@.len()) ==> #[trigger] (*final(self)).byte_at(i) == (
                *old(self)).byte_at(i),
            res is Ok ==> forall|i: int|
                offset <= i < offset + buf@.len() ==> #[trigger] (*final(self)).byte_at(i)
                    == buf@[i - offset],
    ;

    /// The size of the device in bytes.
    fn size(&self) -> (n: u64)
        ensures
            n == self.byte_count(),
    ;

    /// Flushes pending writes to stable storage. Where the host does that on
    /// its own, there is nothing to do.
    fn sync(&mut self) -> (res: Result<(), String>)
        ensures
            (*final(self)).byte_count() == (*old(self)).byte_count(),
            (*final(self)).faults() == after_sync((*old(self)).faults(), res),
            forall|i: int| #[trigger] (*final(self)).byte_at(i) == (*old(self)).byte_at(i),
    {
        Ok(())
    }
}

impl<T: BlockIo + ?Sized> BlockIo for &mut T {
    open spec fn byte_at(&self, at: int) -> u8 {
        (**self).byte_at(at)
    }

    open spec fn byte_count(&self) -> u64 {
        (**self).byte_count()
    }

    open spec fn faults(&self) -> Option<Faults> {
        (**self).faults()
    }

    fn read_exact_at(&mut self, offset: u64, buf: &mut [u8]) -> (res: Result<(), String>) {
        (**self).read_exact_at(offset, buf)
    }

    fn write_all_at(&mut self, offset: u64, buf: &[u8]) -> (res: Result<(), String>) {
        (**self).write_all_at(offset, buf)
    }

    fn size(&self) -> (n: u64) {
        (**self).size()
    }

    fn sync(&mut self) -> (res: Result<(), String>) {
        (**self).sync()
    }
}

/// The contents of a device.
pub open spec fn contents<T: BlockIo + ?Sized>(io: &T) -> spec_fn(int) -> u8 {
    |i: int| io.byte_at(i)
}

/// The two devices hold the same bytes.
pub open spec fn same_bytes<T: BlockIo + ?Sized>(a: &T, b: &T) -> bool {
    forall|i: int| #[trigger] a.byte_at(i) == b.byte_at(i)
}

/// A volume held in memory, which takes no writes.
pub struct Bytes(pub Vec<u8>);

impl BlockIo for Bytes {
    open spec fn byte_at(&self, at: int) -> u8 {
        self.0@[at]
    }

    open spec fn byte_count(&self) -> u64 {
        self.0@.len() as u64
    }

    /// No count is kept.
    open spec fn faults(&self) -> Option<Faults> {
        None
    }

    /// Reads what lies inside the volume, and nothing past its end.
    fn read_exact_at(&mut self, offset: u64, buf: &mut [u8]) -> (res: Result<(), String>)
        ensures
            match res {
                Ok(_) => offset + old(buf)@.len() <= (*old(self)).0@.len(),
                Err(m) => {
                    &&& offset + old(buf)@.len() > (*old(self)).0@.len()
                    &&& m@ == "read of "@ + text::dec(old(buf)@.len()) + " bytes at "@ + text::dec(
                        offset as nat,
                    ) + " runs past the end of a "@ + text::dec((*old(self)).0@.len())
                        + "-byte volume"@
                },
            },
    {
        let n: usize = buf.len();
        let size: usize = self.0.len();
        if offset > size as u64 || n > size - offset as usize {
            return Err(
                "read of ".to_owned().concat(decimal(n as u64).as_str()).concat(
                    " bytes at ",
                ).concat(decimal(offset).as_str()).concat(" runs past the end of a ").concat(
                    decimal(size as u64).as_str(),
                ).concat("-byte volume"),
            );
        }
        let start: usize = offset as usize;
        let mut i: usize = 0;
        while i < n
            invariant
                n == buf@.len(),
                i <= n,
                start == offset,
                size == self.0@.len(),
                start + n <= size,
                *self == *old(self),
                forall|k: int| 0 <= k < i ==> #[trigger] buf@[k] == self.0@[start + k],
            decreases n - i,
        {
            buf[i] = self.0[start + i];
            i = i + 1;
        }
        Ok(())
    }

    /// Refuses: the volume is read-only.
    fn write_all_at(&mut self, offset: u64, buf: &[u8]) -> (res: Result<(), String>)
        ensures
            *final(self) == *old(self),
            res matches Err(m) && m@ == "this volume is read-only"@,
    {
        Err("this volume is read-only".to_owned())
    }

    fn size(&self) -> (n: u64) {
        self.0.len() as u64
    }
}

/// A place to seek to.
#[derive(Debug, Clone, Copy)]
pub enum SeekTo {
    Start(u64),
    End(i64),
    Current(i64),
}

/// A device with a position, to be read from one end to the other.
pub struct IoReadSeek<'a, T: BlockIo + ?Sized> {
    pub io: &'a mut T,
    pub position: u64,
}

/// `v` as a signed number of the same 64 bits.
pub open spec fn as_signed(v: u64) -> int {
    if v > i64::MAX {
        v - 0x1_0000_0000_0000_0000
    } else {
        v as int
    }
}

fn to_signed(v: u64) -> (s: i64)
    ensures
        s == as_signed(v),
{
    if v > i64::MAX as u64 {
        i64::MIN + (v - 0x8000_0000_0000_0000) as i64
    } else {
        v as i64
    }
}

/// Where a seek goes, from `position` on a device of `size` bytes.
pub open spec fn seek_target(to: SeekTo, position: u64, size: u64) -> int {
    match to {
        SeekTo::Start(p) => as_signed(p),
        SeekTo::End(p) => as_signed(size) + p,
        SeekTo::Current(p) => as_signed(position) + p,
    }
}

impl<'a, T: BlockIo + ?Sized> IoReadSeek<'a, T> {
    /// The device, from its start.
    pub fn new(io: &'a mut T) -> (r: Self)
        ensures
            r.position == 0,
            (*r.io).byte_count() == (*old(io)).byte_count(),
            same_bytes(&*r.io, &*old(io)),
            (*final(io)).byte_count() == (*final(r.io)).byte_count(),
            same_bytes(&*final(io), &*final(r.io)),
            (*r.io).faults() == (*old(io)).faults(),
            (*final(io)).faults() == (*final(r.io)).faults(),
    {
        IoReadSeek { io, position: 0 }
    }

    /// Reads what there is, up to the size of `buf` and the end of the device,
    /// and moves past it.
    pub fn read(&mut self, buf: &mut [u8]) -> (res: Result<usize, String>)
        ensures
            final(buf)@.len() == old(buf)@.len(),
            (*(*final(self)).io).byte_count() == (*(*old(self)).io).byte_count(),
            same_bytes(&*(*final(self)).io, &*(*old(self)).io),
            match res {
                Ok(n) => {
                    let size = (*(*old(self)).io).byte_count();
                    let left = if (*old(self)).position >= size {
                        0
                    } else {
                        size - (*old(self)).position
                    };
                    &&& n == if old(buf)@.len() <= left {
                        old(buf)@.len() as int
                    } else {
                        left
                    }
                    &&& (*(*final(self)).io).faults() == (*(*old(self)).io).faults()
                    &&& (*final(self)).position == (*old(self)).position + n
                    &&& forall|i: int|
                        0 <= i < n ==> #[trigger] final(buf)@[i] == (*(*old(self)).io).byte_at(
                            (*old(self)).position + i,
                        )
                    &&& forall|i: int|
                        n <= i < old(buf)@.len() ==> #[trigger] final(buf)@[i] == old(buf)@[i]
                },
                Err(_) => {
                    &&& (*old(self)).position < (*(*old(self)).io).byte_count()
                    &&& old(buf)@.len() > 0
                    &&& read_fault((*(*old(self)).io).faults(), (*(*final(self)).io).faults())
                    &&& (*final(self)).position == (*old(self)).position
                },
            },
    {
        let size: u64 = self.io.size();
        if self.position >= size {
            return Ok(0);
        }
        let left: u64 = size - self.position;
        let want: usize = if buf.len() as u64 <= left {
            buf.len()
        } else {
            left as usize
        };
        if want == 0 {
            return Ok(0);
        }
        let (front, back) = buf.split_at_mut(want);
        match self.io.read_exact_at(self.position, front) {
            Ok(_) => {},
            Err(m) => {
                return Err(m);
            },
        }
        self.position = self.position + want as u64;
        Ok(want)
    }

    /// Moves to another place. Nothing is before the start.
    pub fn seek(&mut self, to: SeekTo) -> (res: Result<u64, String>)
        requires
            i64::MIN <= seek_target(to, (*old(self)).position, (*(*old(self)).io).byte_count())
                <= i64::MAX,
        ensures
            (*(*final(self)).io).byte_count() == (*(*old(self)).io).byte_count(),
            same_bytes(&*(*final(self)).io, &*(*old(self)).io),
            (*(*final(self)).io).faults() == (*(*old(self)).io).faults(),
            ({
                let target = seek_target(to, (*old(self)).position, (*(*old(self)).io).byte_count());
                match res {
                    Ok(p) => target >= 0 && p == target && (*final(self)).position == p,
                    Err(m) => target < 0 && m@ == "seek before start"@ && (*final(self)).position == (
                    *old(self)).position,
                }
            }),
    {
        let target: i64 = match to {
            SeekTo::Start(p) => to_signed(p),
            SeekTo::End(p) => to_signed(self.io.size()) + p,
            SeekTo::Current(p) => to_signed(self.position) + p,
        };
        if target < 0 {
            return Err("seek before start".to_owned());
        }
        self.position = target as u64;
        Ok(self.position)
    }
}

} // verus!
