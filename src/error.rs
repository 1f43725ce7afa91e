use vstd::prelude::*;

verus! {

/// Every failure the library reports.
#[derive(Debug, Clone, PartialEq, Eq)]
pub enum EdfError {
    FileNotFound(String),
    Io(String),
    InvalidFormat(String),
    FormatError,
    InvalidSignalIndex(usize),
    UnsupportedFileType(String),
    DiscontinuousFile,
    MemoryError,
    InvalidHeader,
    InvalidSignalCount(i32),
    PhysicalMinEqualsMax,
    DigitalMinEqualsMax,
}

} // verus!
