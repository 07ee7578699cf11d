//! A record-ingestion pipeline for compressed bibliographic-record
//! archives.
//!
//! The library orders numerically-named archive files deterministically
//! (`sorter`), fixes the name of the one content file an archive unpacks
//! to (`extract`), splits a content file's byte stream at the record
//! terminator and parses each segment into a record while skipping
//! malformed ones (`decoder`), pulls tagged field values out of parsed
//! records (`record`), and lays out a capped, progress-marked batch run
//! over the sorted archives (`orchestrator`).  Reading directories,
//! unpacking archives and file I/O belong to the surrounding program.

pub mod decoder;
pub mod extract;
pub mod orchestrator;
pub mod record;
pub mod sorter;
pub mod text;

use vstd::prelude::*;

verus! {

/// Adds two numbers. Kept as the library's tiny self-test helper.
pub fn add_nums(a: i32, b: i32) -> (r: i32)
    requires
        i32::MIN <= a + b <= i32::MAX,
    ensures
        r == a + b,
{
    a + b
}

} // verus!
