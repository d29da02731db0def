use std::cell::{Cell, RefCell};
use std::rc::Rc;

use mvht::error::{Detail, IoError};
use mvht::storage::SeekFrom;
use mvht::{Cursor, Reader, Storage, MVHT};

/// A device that has room for a limited number of bytes.
#[derive(Clone)]
struct Limited {
    bytes: Rc<RefCell<Vec<u8>>>,
    limit: Rc<Cell<usize>>,
    closed: Rc<Cell<bool>>,
    position: u64,
}

impl Limited {
    fn new(limit: usize) -> Limited {
        Limited {
            bytes: Rc::new(RefCell::new(vec![])),
            limit: Rc::new(Cell::new(limit)),
            closed: Rc::new(Cell::new(false)),
            position: 0,
        }
    }
}

impl Storage for Limited {
    type Handle = Limited;

    fn open(self, _writable: bool) -> Result<Limited, Detail> {
        if self.closed.get() {
            return Err(Detail::Io(IoError::Device("closed".to_string())));
        }
        Ok(Limited { position: 0, ..self })
    }
}

impl Reader for Limited {
    fn move_to(&mut self, position: u64) -> Result<u64, Detail> {
        self.position = position;
        Ok(position)
    }

    fn stream_position(&mut self) -> Result<u64, Detail> {
        Ok(self.position)
    }

    fn read(&mut self, length: usize) -> Result<Vec<u8>, Detail> {
        // one byte at a time
        let bytes = self.bytes.borrow();
        match bytes.get(self.position as usize) {
            Some(byte) if length > 0 => {
                self.position += 1;
                Ok(vec![*byte])
            }
            _ => Ok(vec![]),
        }
    }
}

impl Cursor for Limited {
    type View<'a> = Limited;

    fn seek(&mut self, pos: SeekFrom) -> Result<u64, Detail> {
        self.position = match pos {
            SeekFrom::Start(position) => position,
            SeekFrom::End(offset) => (self.bytes.borrow().len() as i64 + offset) as u64,
            SeekFrom::Current(offset) => (self.position as i64 + offset) as u64,
        };
        Ok(self.position)
    }

    fn write(&mut self, buf: &[u8]) -> Result<usize, Detail> {
        let mut bytes = self.bytes.borrow_mut();
        let count = buf.len().min(10).min(self.limit.get() - bytes.len());
        bytes.extend_from_slice(&buf[..count]);
        self.position += count as u64;
        Ok(count)
    }

    fn flush(&mut self) -> Result<(), Detail> {
        Ok(())
    }

    fn reopen(&self) -> Result<Limited, Detail> {
        self.clone().open(false)
    }
}

#[test]
fn values_stay_when_an_append_fails() {
    let device = Limited::new(100_000);
    let mut tree = MVHT::new(device.clone()).unwrap();
    for i in 1..=5u8 {
        tree.append(&[i; 9]).unwrap();
    }
    let length = device.bytes.borrow().len();
    device.limit.set(length + 17);
    assert_eq!(Err(Detail::Io(IoError::WriteZero)), tree.append(&[6; 9]));
    assert_eq!(length + 17, device.bytes.borrow().len());
    assert_eq!(5, tree.size());
    for i in 1..=5u8 {
        assert_eq!(Ok(Some(vec![i; 9])), tree.get(i as u64));
    }
    assert_eq!(Ok(None), tree.get(6));

    // once there is room again
    device.limit.set(100_000);
    assert_eq!(6, tree.append(&[6; 9]).unwrap().0);
    let again = MVHT::new(device.clone()).unwrap();
    assert_eq!(tree.root(), again.root());
    for i in 1..=6u8 {
        assert_eq!(Ok(Some(vec![i; 9])), tree.get(i as u64));
        assert_eq!(Ok(Some(vec![i; 9])), again.get(i as u64));
    }
}

#[test]
fn no_room_for_the_head() {
    match MVHT::new(Limited::new(3)) {
        Ok(_) => panic!("the device is too small"),
        Err(detail) => assert_eq!(Detail::Io(IoError::WriteZero), detail),
    }
}

#[test]
fn all_values_are_read_past_torn_entries() {
    let device = Limited::new(100_000);
    let mut tree = MVHT::new(device.clone()).unwrap();
    tree.append(&[1; 9]).unwrap();
    tree.append(&[2; 9]).unwrap();
    // all of the third entry but its trailer is written
    let length = device.bytes.borrow().len();
    device.limit.set(length + 9 + 50 + 4 + 9 + 32);
    assert_eq!(Err(Detail::Io(IoError::WriteZero)), tree.append(&[0xEE; 9]));
    device.limit.set(100_000);
    tree.append(&[3; 9]).unwrap();
    tree.append(&[4; 9]).unwrap();
    let set = tree.get_values_with_hashes(4, 2).unwrap().unwrap();
    let values: Vec<(u64, Vec<u8>)> = set.values.into_iter().map(|v| (v.i, v.value)).collect();
    let expected: Vec<(u64, Vec<u8>)> = (1..=4).map(|i| (i, vec![i as u8; 9])).collect();
    assert_eq!(expected, values);
}

#[test]
fn a_failing_open_is_reported() {
    let device = Limited::new(100_000);
    let mut tree = MVHT::new(device.clone()).unwrap();
    tree.append(&[1; 9]).unwrap();
    device.closed.set(true);
    let closed = || Detail::Io(IoError::Device("closed".to_string()));
    assert_eq!(Err(closed()), tree.get(0));
    assert_eq!(Err(closed()), tree.get_values_with_hashes(0, 0).map(|_| ()));
    assert_eq!(Err(closed()), tree.append(&[2; 9]));
    assert_eq!(1, tree.size());
}

#[test]
fn a_foreign_storage_is_left_alone() {
    let device = Limited::new(100_000);
    device.bytes.borrow_mut().extend_from_slice(b"text");
    match MVHT::new(device.clone()) {
        Ok(_) => panic!("the storage was accepted"),
        Err(detail) => assert_eq!(
            Detail::FileIsNotContentsOfMVHTree { message: "bad magic number" },
            detail
        ),
    }
    assert_eq!(b"text".to_vec(), *device.bytes.borrow());
}
