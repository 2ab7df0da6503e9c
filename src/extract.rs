//! Download side: the object a file is fetched from, and the accounting of
//! the parts of one multipart download as they arrive.
use vstd::prelude::*;

use crate::error::{Error, StaticStrError};
use crate::file_entry::FileEntry;
use crate::key_resolver::{data_key, data_key_spec};
use crate::mmap::{Chunk, Chunker, sequential};

verus! {

/// Message of the error for a first part that does not give the part count.
pub const NO_PARTS_COUNT: &'static str = "no parts count header";

/// Message of the error for a part that does not give its length.
pub const NO_CONTENT_LENGTH: &'static str = "no content length header";

/// Message of the error for a part longer than what is left of the file.
pub const PART_OVERRUN: &'static str = "part extends past the end of the file";

/// Message of the error for parts whose lengths do not add up to the file size.
pub const SIZE_MISMATCH: &'static str = "parts do not add up to the file size";

/// Settings of one download run.
#[derive(Debug, Clone)]
pub struct ArchiveExtract {
    pub file_concurrency: usize,
    pub part_concurrency: usize,
    /// Directory the archived paths are recreated under, if not the current one.
    pub directory: Option<String>,
    pub s3_bucket: String,
    pub s3_prefix: String,
}

/// The bucket and key one file is downloaded from.
#[derive(Debug, Clone)]
pub struct ObjectDownload {
    pub source_bucket: String,
    pub source_key: String,
}

impl ObjectDownload {
    /// The data object of `entry` in the archive under `prefix` of `bucket`.
    pub fn for_entry(bucket: String, prefix: &str, entry: &FileEntry) -> (r: ObjectDownload)
        ensures
            r.source_bucket@ == bucket@,
            r.source_key@ == data_key_spec(prefix@, entry.path_spec()),
    {
        ObjectDownload { source_bucket: bucket, source_key: data_key(prefix, entry.path()) }
    }
}

/// Sum of a sequence of lengths.
pub open spec fn total(s: Seq<nat>) -> nat
    decreases s.len(),
{
    if s.len() == 0 {
        0
    } else {
        total(s.drop_last()) + s.last()
    }
}

/// The spans that parts of the given lengths occupy when laid end to end
/// from byte 0.
pub open spec fn spans_of_lengths(s: Seq<nat>) -> Seq<(nat, nat)>
    decreases s.len(),
{
    if s.len() == 0 {
        Seq::empty()
    } else {
        spans_of_lengths(s.drop_last()).push((total(s.drop_last()), s.last()))
    }
}

/// Parts laid end to end carve exactly `[0, total)` of the destination.
pub proof fn lemma_lengths_carve(s: Seq<nat>)
    ensures
        sequential(spans_of_lengths(s), total(s)),
    decreases s.len(),
{
    if s.len() > 0 {
        lemma_lengths_carve(s.drop_last());
        assert(spans_of_lengths(s).drop_last() =~= spans_of_lengths(s.drop_last()));
    }
}

/// What a download in progress stands for: the file size, the part count
/// that the first part announced, and the lengths of the parts received.
pub struct DownloadView {
    pub size: nat,
    pub parts_count: Option<int>,
    pub received: Seq<nat>,
}

/// Accounting of one multipart download: part 1 is fetched first and
/// announces the part count; each part's length carves the next chunk of the
/// pre-sized destination.
pub struct PartDownloads {
    chunker: Chunker,
    parts_count: Option<i64>,
    received_count: u64,
    received: Ghost<Seq<nat>>,
}

impl View for PartDownloads {
    type V = DownloadView;

    closed spec fn view(&self) -> DownloadView {
        DownloadView {
            size: self.chunker@.len,
            parts_count: match self.parts_count {
                Some(c) => Some(c as int),
                None => None,
            },
            received: self.received@,
        }
    }
}

impl PartDownloads {
    pub closed spec fn wf(&self) -> bool {
        &&& self.chunker.wf()
        &&& self.chunker@.offset == total(self.received@)
        &&& self.received_count == self.received@.len()
        &&& self.parts_count is None ==> self.received@.len() == 0
        &&& self.parts_count is Some ==> self.received@.len() >= 1
    }

    /// Whether every announced part has arrived.
    pub open spec fn done(&self) -> bool {
        self@.parts_count matches Some(c) && self@.received.len() >= c
    }

    /// Bytes of the destination not yet covered by a part.
    pub open spec fn room(&self) -> int {
        self@.size - total(self@.received)
    }

    /// A download into a destination of `size` bytes, before any part.
    pub fn new(size: usize) -> (r: PartDownloads)
        ensures
            r.wf(),
            r@ == (DownloadView { size: size as nat, parts_count: None, received: Seq::empty() }),
    {
        PartDownloads {
            chunker: Chunker::new(size),
            parts_count: None,
            received_count: 0,
            received: Ghost(Seq::empty()),
        }
    }

    /// Number of the part to fetch next: 1 first, then up to the announced
    /// count; `None` once every part has arrived.
    pub fn next_part_number(&self) -> (r: Option<u64>)
        requires
            self.wf(),
        ensures
            self@.parts_count is None ==> r == Some(1u64),
            self@.parts_count is Some ==> (r is None <==> self.done()),
            r matches Some(n) ==> n == self@.received.len() + 1,
    {
        match self.parts_count {
            None => Some(1),
            Some(c) => {
                if c >= 0 && self.received_count < c as u64 {
                    Some(self.received_count + 1)
                } else {
                    None
                }
            },
        }
    }

    /// Takes in the headers of the part just fetched and returns the chunk
    /// its body is written to. The first part must announce the part count;
    /// every part must announce a length that fits in what is left.
    pub fn accept(&mut self, parts_count: Option<i64>, content_length: Option<i64>) -> (r: Result<
        Chunk,
        Error,
    >)
        requires
            old(self).wf(),
            !old(self).done(),
        ensures
            final(self).wf(),
            final(self)@.size == old(self)@.size,
            old(self)@.parts_count is None && parts_count is None ==> r == Err::<Chunk, Error>(
                Error::StaticStr(StaticStrError(NO_PARTS_COUNT)),
            ),
            (old(self)@.parts_count is Some || parts_count is Some) && content_length is None
                ==> r == Err::<Chunk, Error>(Error::StaticStr(StaticStrError(NO_CONTENT_LENGTH))),
            (old(self)@.parts_count is Some || parts_count is Some) && content_length is Some && !(0
                <= content_length.unwrap() <= old(self).room()) ==> r == Err::<Chunk, Error>(
                Error::StaticStr(StaticStrError(PART_OVERRUN)),
            ),
            r is Err ==> final(self)@ == old(self)@,
            r matches Ok(chunk) ==> {
                &&& content_length matches Some(l)
                &&& chunk@ == (total(old(self)@.received), l as nat)
                &&& final(self)@.received == old(self)@.received.push(l as nat)
                &&& final(self)@.parts_count == (if old(self)@.parts_count is None {
                    Some(parts_count.unwrap() as int)
                } else {
                    old(self)@.parts_count
                })
            },
            (r is Ok) <==> ((old(self)@.parts_count is Some || parts_count is Some)
                && content_length is Some && 0 <= content_length.unwrap() <= old(self).room()),
    {
        let count = match self.parts_count {
            Some(c) => c,
            None => match parts_count {
                Some(c) => c,
                None => {
                    return Err(Error::StaticStr(StaticStrError(NO_PARTS_COUNT)));
                },
            },
        };
        let len = match content_length {
            Some(l) => l,
            None => {
                return Err(Error::StaticStr(StaticStrError(NO_CONTENT_LENGTH)));
            },
        };
        if len < 0 || len as u64 > self.chunker.size() as u64 {
            return Err(Error::StaticStr(StaticStrError(PART_OVERRUN)));
        }
        let chunk = self.chunker.take_chunk(len as usize);
        let ghost prev = self.received@;
        self.received = Ghost(prev.push(len as nat));
        assert(self.received@.drop_last() =~= prev);
        self.parts_count = Some(count);
        self.received_count = self.received_count + 1;
        Ok(chunk)
    }

    /// Checks, once every part has arrived, that their lengths add up to the
    /// file size.
    pub fn finish(&self) -> (r: Result<(), Error>)
        requires
            self.wf(),
        ensures
            (r is Ok) <==> (self.done() && total(self@.received) == self@.size),
            r is Ok ==> sequential(spans_of_lengths(self@.received), self@.size),
            r is Err ==> r == Err::<(), Error>(Error::StaticStr(StaticStrError(SIZE_MISMATCH))),
    {
        if self.next_part_number().is_none() && self.chunker.size() == 0 {
            proof {
                lemma_lengths_carve(self@.received);
            }
            Ok(())
        } else {
            Err(Error::StaticStr(StaticStrError(SIZE_MISMATCH)))
        }
    }
}

} // verus!
