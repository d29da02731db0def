//! The errors that the operations of this library report.
use vstd::prelude::*;

verus! {

/// A failure of the device below a storage.
#[derive(Debug, PartialEq, Eq)]
pub enum IoError {
    /// A write through a cursor that was not opened for writing.
    PermissionDenied,
    /// The storage ended before all requested bytes were read.
    UnexpectedEof,
    /// A seek to a position before the head of the storage, or to one that does not fit in 64 bits.
    InvalidSeek,
    /// The device accepted none of the bytes that were offered.
    WriteZero,
    /// The device has no room for the bytes that were offered.
    StorageFull,
    /// Any other failure that the device reported.
    Device(String),
}

/// What went wrong in an operation.
#[derive(Debug, PartialEq, Eq)]
#[allow(inconsistent_fields)]
pub enum Detail {
    /// The storage does not start with the identifier of a hash tree file.
    FileIsNotContentsOfMVHTree { message: &'static str },
    /// The storage was written in a format with this major and minor version.
    IncompatibleVersion(u8, u8),
    /// The end of the storage does not hold a complete entry.
    DamagedStorage(String),
    /// The value to append is larger than a payload can be.
    TooLargePayload { size: usize },
    /// The offset in the trailer of an entry is not the length of the entry.
    IncorrectEntryHeadOffset { expected: u32, actual: u64 },
    /// The checksum in the trailer of an entry is not that of its bytes.
    ChecksumVerificationFailed { at: u64, length: u32, expected: u64, actual: u64 },
    /// The entry at this position is not the one that was looked for.
    IncorrectNodeBoundary { at: u64 },
    /// The tree structure and the data on the storage contradict each other.
    InternalStateInconsistency { message: String },
    /// The device failed.
    Io(IoError),
}

/// The meaning of an [`IoError`].
pub enum IoErrorView {
    PermissionDenied,
    UnexpectedEof,
    InvalidSeek,
    WriteZero,
    StorageFull,
    Device(Seq<char>),
}

/// The meaning of a [`Detail`]: texts stand for the characters that they hold.
#[allow(inconsistent_fields)]
pub enum DetailView {
    FileIsNotContentsOfMVHTree { message: Seq<char> },
    IncompatibleVersion(u8, u8),
    DamagedStorage(Seq<char>),
    TooLargePayload { size: usize },
    IncorrectEntryHeadOffset { expected: u32, actual: u64 },
    ChecksumVerificationFailed { at: u64, length: u32, expected: u64, actual: u64 },
    IncorrectNodeBoundary { at: u64 },
    InternalStateInconsistency { message: Seq<char> },
    Io(IoErrorView),
}

impl View for IoError {
    type V = IoErrorView;

    open spec fn view(&self) -> IoErrorView {
        match *self {
            IoError::PermissionDenied => IoErrorView::PermissionDenied,
            IoError::UnexpectedEof => IoErrorView::UnexpectedEof,
            IoError::InvalidSeek => IoErrorView::InvalidSeek,
            IoError::WriteZero => IoErrorView::WriteZero,
            IoError::StorageFull => IoErrorView::StorageFull,
            IoError::Device(message) => IoErrorView::Device(message@),
        }
    }
}

impl View for Detail {
    type V = DetailView;

    open spec fn view(&self) -> DetailView {
        match *self {
            Detail::FileIsNotContentsOfMVHTree { message } =>
                DetailView::FileIsNotContentsOfMVHTree { message: message@ },
            Detail::IncompatibleVersion(major, minor) =>
                DetailView::IncompatibleVersion(major, minor),
            Detail::DamagedStorage(message) => DetailView::DamagedStorage(message@),
            Detail::TooLargePayload { size } => DetailView::TooLargePayload { size },
            Detail::IncorrectEntryHeadOffset { expected, actual } =>
                DetailView::IncorrectEntryHeadOffset { expected, actual },
            Detail::ChecksumVerificationFailed { at, length, expected, actual } =>
                DetailView::ChecksumVerificationFailed { at, length, expected, actual },
            Detail::IncorrectNodeBoundary { at } => DetailView::IncorrectNodeBoundary { at },
            Detail::InternalStateInconsistency { message } =>
                DetailView::InternalStateInconsistency { message: message@ },
            Detail::Io(error) => DetailView::Io(error@),
        }
    }
}

impl DetailView {
    /// Whether this is an error that only a device that fails, or that is full, reports.
    pub open spec fn is_fault(self) -> bool {
        match self {
            DetailView::Io(IoErrorView::WriteZero) => true,
            DetailView::Io(IoErrorView::StorageFull) => true,
            DetailView::Io(IoErrorView::Device(_)) => true,
            _ => false,
        }
    }
}

/// The read error at the end of the storage.
pub open spec fn unexpected_eof() -> DetailView {
    DetailView::Io(IoErrorView::UnexpectedEof)
}

/// Whether an operation that should have the result `expected` may fail with `detail`: this is the
/// expected failure, or the device reported a fault.
pub open spec fn failed<V>(
    faultless: bool,
    detail: Detail,
    expected: Result<V, DetailView>,
) -> bool {
    ||| expected == Err::<V, DetailView>(detail@)
    ||| !faultless && detail@.is_fault()
}

/// Reports that the tree structure and the data on the storage contradict each other.
pub fn inconsistency<T>(message: String) -> (result: Result<T, Detail>)
    ensures
        result matches Err(detail)
            && detail@ == (DetailView::InternalStateInconsistency { message: message@ }),
{
    Err(Detail::InternalStateInconsistency { message })
}

} // verus!
