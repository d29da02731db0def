//! Byte stores, and cursors that read and write them.
use crate::endian;
use crate::error;
use crate::error::{Detail, DetailView, IoError, IoErrorView};
use vstd::prelude::*;
use vstd::slice::slice_subrange;

verus! {

/// Where a cursor is moved to.
#[derive(Clone, Copy, Debug, PartialEq, Eq)]
pub enum SeekFrom {
    /// To this many bytes behind the head.
    Start(u64),
    /// To this many bytes behind the end.
    End(i64),
    /// To this many bytes behind the present position.
    Current(i64),
}

impl SeekFrom {
    /// The position that is meant, in a storage of `length` bytes and for a cursor at `position`.
    pub open spec fn target(self, length: nat, position: nat) -> int {
        match self {
            SeekFrom::Start(offset) => offset as int,
            SeekFrom::End(offset) => length + offset,
            SeekFrom::Current(offset) => position + offset,
        }
    }
}

/// A cursor that reads the bytes of a storage.
///
/// What a cursor is on is described by its contents, its position and the like. An implementation
/// outside of verified code does not give these descriptions.
pub trait Reader: Sized {
    /// The bytes of the storage.
    open spec fn contents(&self) -> Seq<u8> {
        vstd::pervasive::arbitrary()
    }

    /// The number of bytes before the cursor.
    open spec fn position(&self) -> nat {
        vstd::pervasive::arbitrary()
    }

    /// Whether the cursor was opened for writing.
    open spec fn writable(&self) -> bool {
        vstd::pervasive::arbitrary()
    }

    /// Whether the device below never fails.
    open spec fn faultless(&self) -> bool {
        vstd::pervasive::arbitrary()
    }

    /// The number of bytes for which the device has room.
    open spec fn capacity(&self) -> nat {
        vstd::pervasive::arbitrary()
    }

    /// Moves the cursor to this many bytes behind the head and returns that position. It may be behind
    /// the end.
    fn move_to(&mut self, position: u64) -> (result: Result<u64, Detail>)
        ensures
            final(self).contents() == old(self).contents(),
            final(self).writable() == old(self).writable(),
            final(self).faultless() == old(self).faultless(),
            final(self).capacity() == old(self).capacity(),
            result matches Ok(moved) ==> moved == position && final(self).position() == position,
            result matches Err(detail) ==> detail@.is_fault(),
            old(self).faultless() ==> result is Ok,
    ;

    /// The position of the cursor.
    fn stream_position(&mut self) -> (result: Result<u64, Detail>)
        ensures
            final(self).contents() == old(self).contents(),
            final(self).position() == old(self).position(),
            final(self).writable() == old(self).writable(),
            final(self).faultless() == old(self).faultless(),
            final(self).capacity() == old(self).capacity(),
            result matches Ok(position) ==> position == old(self).position(),
            result matches Err(detail) ==> detail@.is_fault(),
            old(self).faultless() ==> result is Ok,
    ;

    /// Reads up to `length` bytes at the cursor and moves it behind them. No bytes are returned
    /// only where none were asked for or none are left.
    fn read(&mut self, length: usize) -> (result: Result<Vec<u8>, Detail>)
        ensures
            final(self).contents() == old(self).contents(),
            final(self).writable() == old(self).writable(),
            final(self).faultless() == old(self).faultless(),
            final(self).capacity() == old(self).capacity(),
            result matches Ok(bytes) ==> {
                &&& bytes@.len() <= length
                &&& final(self).position() == old(self).position() + bytes@.len()
                &&& bytes@.len() == 0 <==> length == 0 || old(self).position() >= old(
                    self,
                ).contents().len()
                &&& bytes@.len() > 0 ==> {
                    &&& final(self).position() <= old(self).contents().len()
                    &&& bytes@ == old(self).contents().subrange(
                        old(self).position() as int,
                        (old(self).position() + bytes@.len()) as int,
                    )
                }
            },
            result matches Err(detail) ==> detail@.is_fault(),
            old(self).faultless() ==> result is Ok,
    ;
}

/// A cursor that reads the bytes of a storage and, if it was opened for that, writes them. Nothing
/// else writes to the storage while there is such a cursor.
pub trait Cursor: Reader {
    /// The cursors that read what this one is on.
    type View<'a>: Reader where Self: 'a;

    /// Moves the cursor and returns its new position. Where a place before the head, or one that does
    /// not fit in 64 bits, is meant, it is up to the device whether that is an error or where the
    /// cursor comes to be. What becomes of the contents when it is moved behind their end by an
    /// offset from the end is up to the device, too.
    fn seek(&mut self, pos: SeekFrom) -> (result: Result<u64, Detail>)
        ensures
            final(self).writable() == old(self).writable(),
            final(self).faultless() == old(self).faultless(),
            final(self).capacity() == old(self).capacity(),
            ({
                let target = pos.target(old(self).contents().len(), old(self).position());
                let valid = 0 <= target <= u64::MAX;
                &&& result matches Ok(position) ==> final(self).position() == position && (valid
                    ==> position == target)
                &&& result matches Err(detail) ==> detail@.is_fault() || (!valid && detail@
                    == DetailView::Io(IoErrorView::InvalidSeek))
                &&& result is Err || !(pos is End) || target <= old(self).contents().len()
                    ==> final(self).contents() == old(self).contents()
                &&& old(self).faultless() && valid && (pos is End ==> target <= old(
                    self,
                ).contents().len()) ==> result is Ok
            }),
    ;

    /// Writes the first of the bytes in `buf` and returns how many were written. At the end of the
    /// contents the written bytes are appended; what a write at another place does is up to the
    /// device. On an error nothing was written.
    fn write(&mut self, buf: &[u8]) -> (result: Result<usize, Detail>)
        ensures
            final(self).writable() == old(self).writable(),
            final(self).faultless() == old(self).faultless(),
            final(self).capacity() == old(self).capacity(),
            result matches Ok(count) ==> {
                &&& old(self).writable()
                &&& count <= buf@.len()
                &&& old(self).position() == old(self).contents().len() ==> {
                    &&& final(self).contents() == old(self).contents() + buf@.take(count as int)
                    &&& final(self).position() == old(self).position() + count
                    &&& final(self).contents().len() <= u64::MAX
                }
            },
            result matches Err(detail) ==> {
                &&& final(self).contents() == old(self).contents()
                &&& final(self).position() == old(self).position()
                &&& old(self).writable() ==> detail@.is_fault()
            },
            old(self).faultless() && old(self).writable() && old(self).position() == old(
                self,
            ).contents().len() && old(self).contents().len() + buf@.len() <= old(self).capacity()
                ==> (result matches Ok(count) && (buf@.len() > 0 ==> count > 0)),
    ;

    /// Hands what was written over to the device.
    fn flush(&mut self) -> (result: Result<(), Detail>)
        ensures
            final(self).contents() == old(self).contents(),
            final(self).position() == old(self).position(),
            final(self).writable() == old(self).writable(),
            final(self).faultless() == old(self).faultless(),
            final(self).capacity() == old(self).capacity(),
            result matches Err(detail) ==> detail@.is_fault(),
            old(self).faultless() ==> result is Ok,
    ;

    /// Opens another cursor on the same bytes, for reading only, at their head. While it is there
    /// nothing is written through this one, so both are on the same bytes all the time.
    fn reopen<'a>(&'a self) -> (result: Result<Self::View<'a>, Detail>)
        ensures
            result matches Ok(cursor) ==> {
                &&& cursor.contents() == self.contents()
                &&& cursor.position() == 0
                &&& !cursor.writable()
                &&& cursor.faultless() == self.faultless()
            },
            result matches Err(detail) ==> detail@.is_fault(),
            self.faultless() ==> result is Ok,
    ;
}

/// A store of bytes that a hash tree can be kept in. Implementing it lets a tree be serialized to
/// any device.
pub trait Storage: Sized {
    /// The cursors on this storage.
    type Handle: Cursor;

    /// The bytes of the storage.
    open spec fn contents(&self) -> Seq<u8> {
        vstd::pervasive::arbitrary()
    }

    /// Whether the device below never fails.
    open spec fn faultless(&self) -> bool {
        vstd::pervasive::arbitrary()
    }

    /// The number of bytes for which the device has room.
    open spec fn capacity(&self) -> nat {
        vstd::pervasive::arbitrary()
    }

    /// Opens a cursor for reading, or for reading and writing, at the head of the storage. The storage
    /// is handed over to the cursor. So no other cursor is opened on it but through that one, with
    /// [`Cursor::reopen`].
    fn open(self, writable: bool) -> (result: Result<Self::Handle, Detail>)
        ensures
            result matches Ok(cursor) ==> {
                &&& cursor.contents() == self.contents()
                &&& cursor.contents().len() <= u64::MAX
                &&& cursor.position() == 0
                &&& cursor.writable() == writable
                &&& cursor.faultless() == self.faultless()
                &&& cursor.capacity() == self.capacity()
            },
            result matches Err(detail) ==> detail@.is_fault(),
            self.faultless() ==> result is Ok,
    ;
}

/// Whether two states of a cursor differ at most in the position and the contents.
pub open spec fn same_device<R: Reader>(a: R, b: R) -> bool {
    &&& a.writable() == b.writable()
    &&& a.faultless() == b.faultless()
    &&& a.capacity() == b.capacity()
}

/// Whether `length` bytes can be read at `position`.
pub open spec fn available(contents: Seq<u8>, position: nat, length: nat) -> bool {
    length == 0 || position + length <= contents.len()
}

/// The `length` bytes at `position`.
pub open spec fn bytes_at(contents: Seq<u8>, position: nat, length: nat) -> Seq<u8> {
    if length == 0 {
        Seq::empty()
    } else {
        contents.subrange(position as int, (position + length) as int)
    }
}

/// What reading exactly `length` bytes at `position` gives.
pub open spec fn exact_read(contents: Seq<u8>, position: nat, length: nat) -> Result<
    Seq<u8>,
    DetailView,
> {
    if available(contents, position, length) {
        Ok(bytes_at(contents, position, length))
    } else {
        Err(error::unexpected_eof())
    }
}

/// Reads exactly `length` bytes.
pub fn read_exact<R: Reader>(r: &mut R, length: usize) -> (result: Result<Vec<u8>, Detail>)
    ensures
        final(r).contents() == old(r).contents(),
        same_device(*final(r), *old(r)),
        ({
            let expected = exact_read(old(r).contents(), old(r).position(), length as nat);
            match result {
                Ok(bytes) => {
                    &&& expected == Ok::<Seq<u8>, DetailView>(bytes@)
                    &&& bytes@.len() == length
                    &&& final(r).position() == old(r).position() + length
                },
                Err(detail) => error::failed(old(r).faultless(), detail, expected),
            }
        }),
{
    let mut bytes: Vec<u8> = Vec::new();
    while bytes.len() < length
        invariant
            bytes@.len() <= length,
            r.contents() == old(r).contents(),
            same_device(*r, *old(r)),
            r.position() == old(r).position() + bytes@.len(),
            available(r.contents(), old(r).position(), bytes@.len()),
            bytes@ == bytes_at(r.contents(), old(r).position(), bytes@.len()),
        decreases length - bytes.len(),
    {
        let ghost before = *r;
        match r.read(length - bytes.len()) {
            Ok(mut part) => {
                if part.len() == 0 {
                    return Err(Detail::Io(IoError::UnexpectedEof));
                }
                let ghost taken = bytes@;
                bytes.append(&mut part);
                assert(bytes@ =~= bytes_at(r.contents(), old(r).position(), bytes@.len()));
            },
            Err(detail) => return Err(detail),
        }
    }
    Ok(bytes)
}

/// Reads one byte.
pub fn read_u8<R: Reader>(r: &mut R) -> (result: Result<u8, Detail>)
    ensures
        final(r).contents() == old(r).contents(),
        same_device(*final(r), *old(r)),
        result matches Ok(n) ==> {
            &&& old(r).position() + 1 <= old(r).contents().len()
            &&& n == old(r).contents()[old(r).position() as int]
            &&& final(r).position() == old(r).position() + 1
        },
        result matches Err(detail) ==> {
            ||| detail@ == error::unexpected_eof() && old(r).position() + 1 > old(r).contents().len()
            ||| !old(r).faultless() && detail@.is_fault()
        },
{
    match read_exact(r, 1) {
        Ok(bytes) => Ok(bytes[0]),
        Err(detail) => Err(detail),
    }
}

/// Reads a little-endian 32-bit number.
pub fn read_u32<R: Reader>(r: &mut R) -> (result: Result<u32, Detail>)
    ensures
        final(r).contents() == old(r).contents(),
        same_device(*final(r), *old(r)),
        result matches Ok(n) ==> {
            &&& old(r).position() + 4 <= old(r).contents().len()
            &&& n == endian::le_value(bytes_at(old(r).contents(), old(r).position(), 4))
            &&& final(r).position() == old(r).position() + 4
        },
        result matches Err(detail) ==> {
            ||| detail@ == error::unexpected_eof() && old(r).position() + 4 > old(r).contents().len()
            ||| !old(r).faultless() && detail@.is_fault()
        },
{
    match read_exact(r, 4) {
        Ok(bytes) => Ok(endian::decode_u32(bytes.as_slice())),
        Err(detail) => Err(detail),
    }
}

/// Reads a little-endian 64-bit number.
pub fn read_u64<R: Reader>(r: &mut R) -> (result: Result<u64, Detail>)
    ensures
        final(r).contents() == old(r).contents(),
        same_device(*final(r), *old(r)),
        result matches Ok(n) ==> {
            &&& old(r).position() + 8 <= old(r).contents().len()
            &&& n == endian::le_value(bytes_at(old(r).contents(), old(r).position(), 8))
            &&& final(r).position() == old(r).position() + 8
        },
        result matches Err(detail) ==> {
            ||| detail@ == error::unexpected_eof() && old(r).position() + 8 > old(r).contents().len()
            ||| !old(r).faultless() && detail@.is_fault()
        },
{
    match read_exact(r, 8) {
        Ok(bytes) => Ok(endian::decode_u64(bytes.as_slice())),
        Err(detail) => Err(detail),
    }
}

/// Appends all bytes of `buf` to the contents. Where the device fails, the first of them may have
/// been appended.
pub fn write_all<C: Cursor>(w: &mut C, buf: &[u8]) -> (result: Result<(), Detail>)
    requires
        old(w).position() == old(w).contents().len(),
        old(w).contents().len() <= u64::MAX,
    ensures
        same_device(*final(w), *old(w)),
        final(w).position() == final(w).contents().len(),
        final(w).contents().len() <= u64::MAX,
        result is Ok ==> final(w).contents() == old(w).contents() + buf@,
        result is Err ==> appended_part(old(w).contents(), final(w).contents(), buf@),
        old(w).writable() ==> (result matches Err(detail) ==> detail@.is_fault()),
        !old(w).writable() && buf@.len() > 0 ==> result is Err && final(w).contents() == old(
            w,
        ).contents(),
        old(w).faultless() && old(w).writable() && old(w).contents().len() + buf@.len() <= old(w).capacity()
            ==> result is Ok,
{
    let mut done: usize = 0;
    assert(old(w).contents() + buf@.take(0) =~= old(w).contents());
    while done < buf.len()
        invariant
            done <= buf@.len(),
            same_device(*w, *old(w)),
            !w.writable() ==> done == 0,
            w.position() == w.contents().len(),
            w.contents().len() <= u64::MAX,
            w.contents() == old(w).contents() + buf@.take(done as int),
        decreases buf@.len() - done,
    {
        let rest = slice_subrange(buf, done, buf.len());
        match w.write(rest) {
            Ok(count) => {
                if count == 0 {
                    return Err(Detail::Io(IoError::WriteZero));
                }
                proof {
                    assert(buf@.take(done as int) + rest@.take(count as int) =~= buf@.take(
                        done + count,
                    ));
                }
                done = done + count;
            },
            Err(detail) => return Err(detail),
        }
    }
    assert(buf@.take(done as int) =~= buf@);
    Ok(())
}

/// Whether `after` is `before` with the first of the bytes of `buf` appended.
pub open spec fn appended_part(before: Seq<u8>, after: Seq<u8>, buf: Seq<u8>) -> bool {
    exists|count: int|
        0 <= count <= buf.len() && after == #[trigger] (before + buf.take(count))
}

} // verus!
