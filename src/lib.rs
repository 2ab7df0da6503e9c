//! Verified core of an S3 archiver: key layout, manifest encoding, the
//! carving of mapped files into parts, part bookkeeping for multipart
//! transfers, the retry schedule and the part executor's admission rules.
use vstd::prelude::*;

pub mod chan_exec;
pub mod create;
pub mod error;
pub mod extract;
pub mod file_entry;
pub mod key_resolver;
pub mod manifest;
pub mod mmap;
pub mod utils;

verus! {

} // verus!
