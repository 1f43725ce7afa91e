use vstd::prelude::*;

pub mod error;
pub mod header_read;
pub mod header_roundtrip;
pub mod header_write;
pub mod reader;
pub mod roundtrip;
pub mod recording;
pub mod sort;
pub mod tal_encode;
pub mod tal_parse;
pub mod text;
pub mod types;
pub mod utils;
pub mod writer;

pub use error::EdfError;
pub use reader::{AnnotationScan, EdfReader, SignalInfo};
pub use types::{Annotation, EdfHeader, FileType, SignalParam, StartDate, StartTime};
pub use utils::{
    atoi_nonlocalized, is_integer_number, is_number, parse_edf_time, trim_padding_spaces,
};
pub use writer::EdfWriter;

verus! {

/// Ticks per second: one tick is 100 nanoseconds.
pub const EDFLIB_TIME_DIMENSION: i64 = 10_000_000;

/// Most signals a file may hold.
pub const EDFLIB_MAXSIGNALS: usize = 4096;

/// Longest annotation description accepted before truncation, in bytes.
pub const EDFLIB_MAX_ANNOTATION_LEN: usize = 512;

/// The library's version.
pub fn version() -> (r: &'static str)
    ensures
        r@ == "0.1.0"@,
{
    let v = "0.1.0";
    proof {
        reveal_strlit("0.1.0");
    }
    v
}

} // verus!
