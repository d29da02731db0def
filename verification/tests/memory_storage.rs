use mvht::error::{Detail, IoError};
use mvht::storage::{self, SeekFrom};
use mvht::{Cursor, MemStorage, Reader, Storage};

#[test]
fn bytes_are_appended() {
    let mut cursor = MemStorage::new().open(true).unwrap();
    assert_eq!(Ok(3), cursor.write(&[1, 2, 3]));
    assert_eq!(Ok(3), cursor.stream_position());
    assert_eq!(Ok(0), cursor.seek(SeekFrom::Start(0)));
    assert_eq!(Ok(1), cursor.write(&[4]));
    assert_eq!(&vec![1, 2, 3, 4], cursor.bytes());
    assert_eq!(Ok(1), cursor.stream_position());
    assert_eq!(Ok(()), cursor.flush());
}

#[test]
fn a_cursor_for_reading_does_not_write() {
    let mut cursor = MemStorage::new().open(false).unwrap();
    assert_eq!(Err(Detail::Io(IoError::PermissionDenied)), cursor.write(&[1]));
    assert_eq!(&Vec::<u8>::new(), cursor.bytes());
}

#[test]
fn reads_stop_at_the_end() {
    let mut cursor = MemStorage::with(vec![1, 2, 3]).open(false).unwrap();
    assert_eq!(Ok(vec![1, 2]), cursor.read(2));
    assert_eq!(Ok(vec![3]), cursor.read(2));
    assert_eq!(Ok(vec![]), cursor.read(2));
    assert_eq!(Ok(7), cursor.seek(SeekFrom::Start(7)));
    assert_eq!(Ok(vec![]), cursor.read(1));
    assert_eq!(Err(Detail::Io(IoError::UnexpectedEof)), storage::read_u8(&mut cursor));
}

#[test]
fn seeking() {
    let mut cursor = MemStorage::with(vec![1, 2, 3]).open(true).unwrap();
    assert_eq!(Ok(3), cursor.seek(SeekFrom::End(0)));
    assert_eq!(Ok(1), cursor.seek(SeekFrom::Current(-2)));
    assert_eq!(Ok(u64::MAX), cursor.seek(SeekFrom::Current(-2)));
    assert_eq!(Ok(vec![]), cursor.read(1));
    assert_eq!(Ok(1), cursor.seek(SeekFrom::Current(2)));
    assert_eq!(Err(Detail::Io(IoError::InvalidSeek)), cursor.seek(SeekFrom::End(-4)));
    assert_eq!(Ok(u64::MAX), cursor.seek(SeekFrom::Start(u64::MAX)));
    assert_eq!(Err(Detail::Io(IoError::StorageFull)), cursor.write(&[0]));
    assert_eq!(Ok(4), cursor.seek(SeekFrom::Current(5)));
    assert_eq!(Err(Detail::Io(IoError::StorageFull)), cursor.seek(SeekFrom::End(i64::MAX)));
    assert_eq!(&vec![1, 2, 3], cursor.bytes());
    assert_eq!(Ok(5), cursor.seek(SeekFrom::End(2)));
    assert_eq!(&vec![1, 2, 3, 0, 0], cursor.bytes());
}

#[test]
fn a_reader_sees_what_was_written() {
    let mut writer = MemStorage::with(vec![1]).open(true).unwrap();
    assert_eq!(Ok(1), writer.seek(SeekFrom::End(0)));
    assert_eq!(Ok(()), storage::write_all(&mut writer, &[2, 3]));
    let mut reader = writer.reopen().unwrap();
    assert_eq!(Ok(0), reader.stream_position());
    assert_eq!(Ok(vec![1, 2, 3]), storage::read_exact(&mut reader, 3));
    assert_eq!(Ok(2), reader.move_to(2));
    assert_eq!(Ok(vec![3]), reader.read(9));
    assert_eq!(Ok(7), reader.move_to(7));
    assert_eq!(Ok(vec![]), reader.read(9));
    assert_eq!(&vec![1, 2, 3], writer.bytes());
    assert_eq!(Ok(3), writer.stream_position());
}

#[test]
fn the_bytes_are_given_back() {
    let mut first = MemStorage::new().open(true).unwrap();
    assert_eq!(Ok(()), storage::write_all(&mut first, &[1, 2]));
    let mut second = MemStorage::with(first.into_bytes()).open(false).unwrap();
    assert_eq!(Ok(vec![1, 2]), second.read(5));
}

#[test]
fn numbers_are_little_endian() {
    let bytes = vec![0x01, 0x02, 0x03, 0x04, 0x05, 0x06, 0x07, 0x08, 0x09, 0x0A, 0x0B, 0x0C, 0x0D];
    let mut cursor = MemStorage::with(bytes).open(false).unwrap();
    assert_eq!(Ok(0x04030201), storage::read_u32(&mut cursor));
    assert_eq!(Ok(0x0C0B0A0908070605), storage::read_u64(&mut cursor));
    assert_eq!(Ok(0x0D), storage::read_u8(&mut cursor));
    assert_eq!(Err(Detail::Io(IoError::UnexpectedEof)), storage::read_u64(&mut cursor));
}
