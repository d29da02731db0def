//! A storage in memory.
use crate::error::{Detail, DetailView, IoError, IoErrorView};
use crate::storage::{Cursor, Reader, SeekFrom, Storage};
use vstd::math;
use vstd::prelude::*;
use vstd::slice::slice_subrange;

verus! {

/// A storage that keeps its bytes in memory. What was recorded is gone once it is dropped, so it
/// is meant for investigation and for tests.
///
/// There is one owner of the bytes at any time: the storage, and then the cursor that was opened on
/// it. [`MemCursor::bytes`] shows them from outside, and [`MemCursor::into_bytes`] gives them back.
pub struct MemStorage {
    buffer: Vec<u8>,
}

impl MemStorage {
    /// A volatile storage that is empty.
    pub fn new() -> (storage: MemStorage)
        ensures
            storage.contents() == Seq::<u8>::empty(),
    {
        MemStorage::with(Vec::with_capacity(4 * 1024))
    }

    /// A storage that starts with the bytes of `buffer`.
    pub fn with(buffer: Vec<u8>) -> (storage: MemStorage)
        ensures
            storage.contents() == buffer@,
    {
        MemStorage { buffer }
    }
}

impl Storage for MemStorage {
    type Handle = MemCursor;

    closed spec fn contents(&self) -> Seq<u8> {
        self.buffer@
    }

    open spec fn faultless(&self) -> bool {
        true
    }

    open spec fn capacity(&self) -> nat {
        isize::MAX as nat
    }

    fn open(self, writable: bool) -> (result: Result<MemCursor, Detail>) {
        assert(self.buffer.len() == self.buffer@.len());
        Ok(MemCursor { writable, position: 0, buffer: self.buffer })
    }
}

/// A cursor on a storage in memory.
pub struct MemCursor {
    writable: bool,
    position: u64,
    buffer: Vec<u8>,
}

impl MemCursor {
    /// The bytes of the storage that this cursor is on.
    pub fn bytes(&self) -> (bytes: &Vec<u8>)
        ensures
            bytes@ == self.contents(),
    {
        &self.buffer
    }

    /// Closes the cursor and gives back the bytes of the storage.
    pub fn into_bytes(self) -> (bytes: Vec<u8>)
        ensures
            bytes@ == self.contents(),
    {
        self.buffer
    }
}

/// What reading up to `length` bytes at `position` gives.
pub open spec fn bytes_from(contents: Seq<u8>, position: nat, length: nat) -> Seq<u8> {
    contents.skip(math::min(position as int, contents.len() as int)).take(
        math::min(length as int, math::max(contents.len() - position, 0)),
    )
}

/// Copies up to `length` bytes at `position`.
fn copy_from(buffer: &Vec<u8>, position: u64, length: usize) -> (bytes: Vec<u8>)
    ensures
        bytes@ == bytes_from(buffer@, position as nat, length as nat),
        bytes@.len() > 0 ==> position + bytes@.len() <= u64::MAX,
{
    let available: usize = if position < buffer.len() as u64 {
        buffer.len() - position as usize
    } else {
        0
    };
    let count: usize = if length < available { length } else { available };
    let mut bytes: Vec<u8> = Vec::with_capacity(count);
    if count > 0 {
        let start: usize = position as usize;
        bytes.extend_from_slice(slice_subrange(buffer.as_slice(), start, start + count));
    }
    assert(bytes@ =~= bytes_from(buffer@, position as nat, length as nat));
    bytes
}

impl Reader for MemCursor {
    closed spec fn contents(&self) -> Seq<u8> {
        self.buffer@
    }

    closed spec fn position(&self) -> nat {
        self.position as nat
    }

    closed spec fn writable(&self) -> bool {
        self.writable
    }

    open spec fn faultless(&self) -> bool {
        true
    }

    open spec fn capacity(&self) -> nat {
        isize::MAX as nat
    }

    fn move_to(&mut self, position: u64) -> (result: Result<u64, Detail>) {
        self.position = position;
        Ok(position)
    }

    fn stream_position(&mut self) -> (result: Result<u64, Detail>) {
        Ok(self.position)
    }

    fn read(&mut self, length: usize) -> (result: Result<Vec<u8>, Detail>)
        ensures
            result matches Ok(bytes) && bytes@ == bytes_from(
                old(self).contents(),
                old(self).position(),
                length as nat,
            ),
            result matches Ok(bytes) ==> {
                let left = old(self).contents().len() - old(self).position();
                &&& left <= 0 ==> bytes@.len() == 0
                &&& 0 < left <= length ==> bytes@.len() == left
                &&& length < left ==> bytes@.len() == length
            },
    {
        let bytes = copy_from(&self.buffer, self.position, length);
        if bytes.len() > 0 {
            self.position = self.position + bytes.len() as u64;
        }
        Ok(bytes)
    }
}

impl Cursor for MemCursor {
    type View<'a> = MemReader<'a>;

    /// Moves the cursor. An offset from the present position is added modulo 2 to the power of 64. A
    /// place before the head by an offset from the end is an error. Zeros are appended up to a place
    /// behind the end by an offset from there.
    fn seek(&mut self, pos: SeekFrom) -> (result: Result<u64, Detail>)
        ensures
            ({
                let length = old(self).contents().len();
                let target = pos.target(length, old(self).position());
                match pos {
                    SeekFrom::Start(position) => {
                        &&& result == Ok::<u64, Detail>(position)
                        &&& final(self).contents() == old(self).contents()
                        &&& final(self).position() == position
                    },
                    SeekFrom::Current(_) => {
                        &&& result matches Ok(position)
                        &&& position == target % 0x1_0000_0000_0000_0000
                        &&& final(self).contents() == old(self).contents()
                        &&& final(self).position() == position
                    },
                    SeekFrom::End(_) => if target < 0 || target > u64::MAX {
                        &&& result matches Err(detail)
                        &&& detail@ == DetailView::Io(IoErrorView::InvalidSeek)
                        &&& *final(self) == *old(self)
                    } else if target > length && target > isize::MAX {
                        &&& result matches Err(detail)
                        &&& detail@ == DetailView::Io(IoErrorView::StorageFull)
                        &&& *final(self) == *old(self)
                    } else {
                        let padding = if target > length {
                            Seq::new((target - length) as nat, |k: int| 0u8)
                        } else {
                            Seq::empty()
                        };
                        &&& result == Ok::<u64, Detail>(target as u64)
                        &&& final(self).contents() == old(self).contents() + padding
                        &&& final(self).position() == target
                    },
                }
            }),
    {
        let target: u64 = match pos {
            SeekFrom::Start(position) => position,
            SeekFrom::Current(offset) => {
                let moved: i128 = self.position as i128 + offset as i128;
                if moved < 0 {
                    (moved + 0x1_0000_0000_0000_0000) as u64
                } else if moved > u64::MAX as i128 {
                    (moved - 0x1_0000_0000_0000_0000) as u64
                } else {
                    moved as u64
                }
            },
            SeekFrom::End(offset) => {
                let moved: i128 = self.buffer.len() as i128 + offset as i128;
                if moved < 0 || moved > u64::MAX as i128 {
                    return Err(Detail::Io(IoError::InvalidSeek));
                }
                let target: u64 = moved as u64;
                if target > self.buffer.len() as u64 {
                    if target > isize::MAX as u64 {
                        return Err(Detail::Io(IoError::StorageFull));
                    }
                    self.buffer.resize(target as usize, 0u8);
                }
                target
            },
        };
        self.position = target;
        Ok(target)
    }

    fn write(&mut self, buf: &[u8]) -> (result: Result<usize, Detail>)
        ensures
            if !old(self).writable() {
                &&& result matches Err(detail)
                &&& detail@ == DetailView::Io(IoErrorView::PermissionDenied)
                &&& *final(self) == *old(self)
            } else if old(self).contents().len() + buf@.len() > isize::MAX || old(self).position()
                + buf@.len() > u64::MAX {
                &&& result matches Err(detail)
                &&& detail@ == DetailView::Io(IoErrorView::StorageFull)
                &&& *final(self) == *old(self)
            } else {
                &&& result == Ok::<usize, Detail>(buf.len())
                &&& final(self).contents() == old(self).contents() + buf@
                &&& final(self).position() == old(self).position() + buf@.len()
            },
    {
        if !self.writable {
            return Err(Detail::Io(IoError::PermissionDenied));
        }
        let length: usize = buf.len();
        let limit: usize = isize::MAX as usize;
        if self.buffer.len() > limit || length > limit - self.buffer.len() {
            return Err(Detail::Io(IoError::StorageFull));
        }
        let position: u64 = match self.position.checked_add(length as u64) {
            Some(position) => position,
            None => return Err(Detail::Io(IoError::StorageFull)),
        };
        self.buffer.extend_from_slice(buf);
        self.position = position;
        assert(self.buffer@ =~= old(self).buffer@ + buf@);
        Ok(length)
    }

    fn flush(&mut self) -> (result: Result<(), Detail>) {
        Ok(())
    }

    fn reopen<'a>(&'a self) -> (result: Result<MemReader<'a>, Detail>) {
        Ok(MemReader { position: 0, buffer: &self.buffer })
    }
}

/// A cursor that reads the bytes that another cursor is on.
pub struct MemReader<'a> {
    position: u64,
    buffer: &'a Vec<u8>,
}

impl<'a> Reader for MemReader<'a> {
    closed spec fn contents(&self) -> Seq<u8> {
        self.buffer@
    }

    closed spec fn position(&self) -> nat {
        self.position as nat
    }

    open spec fn writable(&self) -> bool {
        false
    }

    open spec fn faultless(&self) -> bool {
        true
    }

    open spec fn capacity(&self) -> nat {
        isize::MAX as nat
    }

    fn move_to(&mut self, position: u64) -> (result: Result<u64, Detail>) {
        self.position = position;
        Ok(position)
    }

    fn stream_position(&mut self) -> (result: Result<u64, Detail>) {
        Ok(self.position)
    }

    fn read(&mut self, length: usize) -> (result: Result<Vec<u8>, Detail>)
        ensures
            result matches Ok(bytes) && bytes@ == bytes_from(
                old(self).contents(),
                old(self).position(),
                length as nat,
            ),
            result matches Ok(bytes) ==> {
                let left = old(self).contents().len() - old(self).position();
                &&& left <= 0 ==> bytes@.len() == 0
                &&& 0 < left <= length ==> bytes@.len() == left
                &&& length < left ==> bytes@.len() == length
            },
    {
        let bytes = copy_from(self.buffer, self.position, length);
        if bytes.len() > 0 {
            self.position = self.position + bytes.len() as u64;
        }
        Ok(bytes)
    }
}

} // verus!
