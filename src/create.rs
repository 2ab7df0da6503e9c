//! Upload side: the descriptors of a multipart upload and the rules that
//! split a file into numbered parts and order the completed parts.
use vstd::prelude::*;
use vstd::arithmetic::div_mod::lemma_fundamental_div_mod;

use crate::error::{Error, StaticStrError};
use crate::file_entry::FileEntry;
use crate::key_resolver::{data_key, data_key_spec};
use crate::mmap::{Chunk, Chunker, ChunkerView, sequential};

verus! {

/// Settings of one upload run.
#[derive(Debug, Clone)]
pub struct ArchiveCreate {
    pub file_concurrency: usize,
    pub part_concurrency: usize,
    pub part_size: usize,
    pub part_queue_size: usize,
    /// Directory the file paths are relative to, if not the current one.
    pub directory: Option<String>,
    pub s3_bucket: String,
    pub s3_prefix: String,
    /// Files and directories to archive.
    pub files: Vec<String>,
}

/// The bucket and key one file is uploaded to.
#[derive(Debug, Clone)]
pub struct ObjectUpload {
    pub target_bucket: String,
    pub target_key: String,
}

impl ObjectUpload {
    /// The data object of `entry` in the archive under `prefix` of `bucket`.
    pub fn for_entry(bucket: String, prefix: &str, entry: &FileEntry) -> (r: ObjectUpload)
        ensures
            r.target_bucket@ == bucket@,
            r.target_key@ == data_key_spec(prefix@, entry.path_spec()),
    {
        ObjectUpload { target_bucket: bucket, target_key: data_key(prefix, entry.path()) }
    }
}

/// An upload about to be initiated.
#[derive(Debug)]
pub struct MultipartUploadStart {
    pub obj: ObjectUpload,
}

impl MultipartUploadStart {
    pub fn new(obj: ObjectUpload) -> (r: MultipartUploadStart)
        ensures
            r.obj == obj,
    {
        MultipartUploadStart { obj }
    }

    /// The session the store opened under `upload_id`, which every later
    /// call of the upload quotes verbatim.
    pub fn started(self, upload_id: String) -> (r: MultipartUpload)
        ensures
            r.obj == self.obj,
            r.upload_id == upload_id,
    {
        MultipartUpload { obj: self.obj, upload_id }
    }
}

/// An initiated multipart upload.
#[derive(Debug)]
pub struct MultipartUpload {
    pub obj: ObjectUpload,
    pub upload_id: String,
}

impl MultipartUpload {
    /// The parts of a file of `len` bytes, `part_size` bytes each but the last.
    pub fn parts(part_size: usize, len: usize) -> (r: PartUploadBodies)
        requires
            part_size > 0,
        ensures
            r.wf(),
            r.state() == (
                part_size as nat,
                Some(ChunkerView { len: len as nat, offset: 0, issued: Seq::empty() }),
            ),
    {
        PartUploadBodies { part_size, mmap_chunker: Some(Chunker::new(len)) }
    }
}

/// Number of parts a file of `len` bytes is uploaded in: `ceil(len / part_size)`,
/// and one (empty) part for an empty file.
pub open spec fn part_count(len: nat, part_size: nat) -> nat
    recommends
        part_size > 0,
{
    if len == 0 {
        1
    } else {
        ((len + part_size - 1) as nat / part_size) as nat
    }
}

/// Span `(offset, len)` of the part with zero-based index `i`.
pub open spec fn part_span(len: nat, part_size: nat, i: nat) -> (nat, nat) {
    let start = i * part_size;
    let rest = len - start;
    (start, if rest < part_size { rest as nat } else { part_size })
}

/// Spans of a list of numbered chunks.
pub open spec fn spans_of(parts: Seq<(u64, Chunk)>) -> Seq<(nat, nat)> {
    parts.map_values(|p: (u64, Chunk)| p.1@)
}

proof fn lemma_part_count_step(len: nat, part_size: nat, k: nat)
    requires
        part_size > 0,
        k * part_size < len,
    ensures
        k < part_count(len, part_size),
        (k + 1) * part_size >= len ==> k + 1 == part_count(len, part_size),
{
    let n = (len + part_size - 1) as int;
    let q = n / part_size as int;
    lemma_fundamental_div_mod(n, part_size as int);
    let r = n % part_size as int;
    assert(0 <= r < part_size);
    assert(q * part_size + r == n) by (nonlinear_arith)
        requires
            n == part_size * q + r,
    ;
    assert(k < q) by (nonlinear_arith)
        requires
            k * part_size < len,
            q * part_size + r == len + part_size - 1,
            0 <= r < part_size,
            part_size > 0,
    ;
    if (k + 1) * part_size >= len {
        assert(q <= k + 1) by (nonlinear_arith)
            requires
                (k + 1) * part_size >= len,
                q * part_size + r == len + part_size - 1,
                0 <= r,
                part_size > 0,
        ;
    }
}

/// The parts of one file, yielded in order: each is the next
/// `min(part_size, remaining)` bytes, and an empty file yields one empty part.
pub struct PartUploadBodies {
    part_size: usize,
    mmap_chunker: Option<Chunker>,
}

impl PartUploadBodies {
    /// The part size and, while parts remain, the cursor over the file.
    pub closed spec fn state(&self) -> (nat, Option<ChunkerView>) {
        (
            self.part_size as nat,
            match self.mmap_chunker {
                Some(c) => Some(c@),
                None => None,
            },
        )
    }

    /// A positive part size, and a live cursor that either has bytes left or
    /// has not yet yielded the single part of an empty file.
    pub closed spec fn wf(&self) -> bool {
        &&& self.part_size > 0
        &&& match self.mmap_chunker {
            Some(c) => c.wf() && (c@.offset < c@.len || (c@.len == 0 && c@.issued.len() == 0)),
            None => true,
        }
    }

    /// Yields the next part, or `None` once the file is exhausted.
    pub fn next(&mut self) -> (r: Option<Chunk>)
        requires
            old(self).wf(),
        ensures
            final(self).wf(),
            final(self).state().0 == old(self).state().0,
            old(self).state().1 is None ==> r is None && final(self).state().1 is None,
            old(self).state().1 matches Some(c) ==> {
                let ps = old(self).state().0;
                let n = if c.len - c.offset < ps { (c.len - c.offset) as nat } else { ps };
                &&& r matches Some(chunk) && chunk@ == (c.offset, n)
                &&& c.offset + n == c.len ==> final(self).state().1 is None
                &&& c.offset + n < c.len ==> final(self).state().1 == Some(
                    ChunkerView { len: c.len, offset: c.offset + n, issued: c.issued.push((c.offset, n)) },
                )
            },
    {
        let part_size = self.part_size;
        match self.mmap_chunker.take() {
            None => None,
            Some(mut mmap_chunker) => {
                let rest = mmap_chunker.size();
                let len = if rest < part_size { rest } else { part_size };
                let mmap_chunk = mmap_chunker.take_chunk(len);
                if mmap_chunker.size() != 0 {
                    self.mmap_chunker = Some(mmap_chunker);
                }
                Some(mmap_chunk)
            },
        }
    }
}

/// Parts of a file of `len` bytes, numbered from 1 in the order they are
/// carved: part `i` holds bytes `[(i-1)*part_size, min(i*part_size, len))`.
pub fn numbered_parts(part_size: usize, len: usize) -> (r: Vec<(u64, Chunk)>)
    requires
        part_size > 0,
    ensures
        r.len() == part_count(len as nat, part_size as nat),
        r.len() >= 1,
        forall|i: int|
            0 <= i < r.len() ==> #[trigger] r[i].0 == i + 1 && r[i].1@ == part_span(
                len as nat,
                part_size as nat,
                i as nat,
            ),
        sequential(spans_of(r@), len as nat),
{
    let mut bodies = MultipartUpload::parts(part_size, len);
    let mut r: Vec<(u64, Chunk)> = Vec::new();
    proof {
        assert(spans_of(r@) =~= Seq::<(nat, nat)>::empty());
        assert(part_count(len as nat, part_size as nat) >= 1) by {
            if len > 0 {
                assert(0 * part_size == 0) by (nonlinear_arith);
                lemma_part_count_step(len as nat, part_size as nat, 0);
            }
        }
        if len > 0 {
            assert(0 * part_size == 0) by (nonlinear_arith);
            lemma_part_count_step(len as nat, part_size as nat, 0);
        }
    }
    loop
        invariant
            bodies.wf(),
            bodies.state().0 == part_size,
            forall|i: int|
                0 <= i < r.len() ==> #[trigger] r[i].0 == i + 1 && r[i].1@ == part_span(
                    len as nat,
                    part_size as nat,
                    i as nat,
                ),
            bodies.state().1 matches Some(c) ==> {
                &&& c.len == len
                &&& c.offset == r.len() * part_size
                &&& c.issued == spans_of(r@)
                &&& r.len() < part_count(len as nat, part_size as nat)
            },
            bodies.state().1 is None ==> {
                &&& r.len() == part_count(len as nat, part_size as nat)
                &&& sequential(spans_of(r@), len as nat)
            },
        ensures
            r.len() == part_count(len as nat, part_size as nat),
            sequential(spans_of(r@), len as nat),
        decreases
            match bodies.state().1 {
                Some(c) => c.len - c.offset + 1,
                None => 0,
            },
    {
        let ghost before = bodies.state().1;
        let ghost k = r.len() as nat;
        match bodies.next() {
            None => {
                break;
            },
            Some(chunk) => {
                let ghost c = before.unwrap();
                proof {
                    if len > 0 {
                        assert(k <= k * part_size) by (nonlinear_arith)
                            requires
                                part_size > 0,
                        ;
                        lemma_part_count_step(len as nat, part_size as nat, k);
                        assert((k + 1) * part_size == k * part_size + part_size) by (nonlinear_arith);
                    } else {
                        assert(k == 0);
                    }
                }
                let ghost old_r = r@;
                r.push(((r.len() as u64) + 1, chunk));
                proof {
                    assert(spans_of(r@) =~= spans_of(old_r).push(chunk@));
                    assert((k + 1) * part_size == k * part_size + part_size) by (nonlinear_arith);
                    let pushed = c.issued.push(chunk@);
                    assert(pushed.drop_last() =~= c.issued);
                    assert(sequential(pushed, c.offset + chunk@.1));
                    if c.offset + chunk@.1 < len {
                        lemma_part_count_step(len as nat, part_size as nat, k + 1);
                    }
                }
            },
        }
    }
    r
}

/// A part the store acknowledged: its number and the tag it returned.
#[derive(Debug, Clone)]
pub struct CompletedPart {
    pub part_number: u64,
    pub e_tag: Option<String>,
}

/// Whether the part numbers of `parts` are exactly `1..=n`, each once.
pub open spec fn numbers_exactly(parts: Seq<CompletedPart>, n: nat) -> bool {
    &&& forall|j: int| 0 <= j < parts.len() ==> 1 <= #[trigger] parts[j].part_number <= n
    &&& forall|i: int, j: int|
        0 <= i < j < parts.len() ==> #[trigger] parts[i].part_number != #[trigger] parts[j].part_number
    &&& forall|k: nat| 1 <= k <= n ==> #[trigger] has_number(parts, k)
}

/// Whether some part of `parts` has number `k`.
pub open spec fn has_number(parts: Seq<CompletedPart>, k: nat) -> bool {
    exists|j: int| 0 <= j < parts.len() && parts[j].part_number == k
}

/// Message of the error for a part list that does not match its upload.
pub const PART_LIST_MISMATCH: &'static str = "completed parts do not match the upload";

/// Orders the acknowledged parts of an upload of `parts_count` parts for
/// completion: ascending by number, contiguous from 1. Fails when the numbers
/// are not exactly `1..=parts_count`.
pub fn sort_completed_parts(parts: Vec<CompletedPart>, parts_count: usize) -> (r: Result<
    Vec<CompletedPart>,
    Error,
>)
    ensures
        (r is Ok) <==> numbers_exactly(parts@, parts_count as nat),
        r matches Ok(v) ==> {
            &&& v.len() == parts_count
            &&& forall|i: int| 0 <= i < v.len() ==> #[trigger] v[i].part_number == i + 1
            &&& forall|i: int| 0 <= i < v.len() ==> #[trigger] parts@.contains(v[i])
        },
        r matches Err(e) ==> e == Error::StaticStr(StaticStrError(PART_LIST_MISMATCH)),
{
    let ghost orig = parts@;
    let mut rest = parts;
    let n = parts_count;
    let mut slots: Vec<Option<CompletedPart>> = Vec::new();
    while slots.len() < n
        invariant
            parts@ == orig,
            n == parts_count,
            slots.len() <= n,
            forall|k: int| 0 <= k < slots.len() ==> slots[k] is None,
        decreases n - slots.len(),
    {
        slots.push(None);
    }
    let mut m = rest.len();
    while m > 0
        invariant
            parts@ == orig,
            n == parts_count,
            m <= orig.len(),
            rest@ == orig.subrange(0, m as int),
            slots.len() == n,
            forall|k: int|
                0 <= k < n ==> (#[trigger] slots[k] matches Some(p) ==> {
                    &&& p.part_number == k + 1
                    &&& exists|j: int| m <= j < orig.len() && orig[j] == p
                }),
            forall|j: int|
                m <= j < orig.len() ==> {
                    &&& 1 <= #[trigger] orig[j].part_number <= n
                    &&& slots[orig[j].part_number - 1] == Some(orig[j])
                },
            forall|i: int, j: int|
                m <= i < j < orig.len() ==> #[trigger] orig[i].part_number != #[trigger] orig[j].part_number,
        decreases m,
    {
        let p = rest.pop().unwrap();
        m = m - 1;
        assert(orig[m as int] == p);
        if p.part_number < 1 || p.part_number > n as u64 {
            assert(!(1 <= orig[m as int].part_number <= n));
            assert(!numbers_exactly(orig, n as nat));
            return Err(Error::StaticStr(StaticStrError(PART_LIST_MISMATCH)));
        }
        let k = (p.part_number - 1) as usize;
        if slots[k].is_some() {
            proof {
                let q = slots[k as int].unwrap();
                let j = choose|j: int| m + 1 <= j < orig.len() && orig[j] == q;
                assert(orig[m as int].part_number == orig[j].part_number);
                assert(!numbers_exactly(orig, n as nat));
            }
            return Err(Error::StaticStr(StaticStrError(PART_LIST_MISMATCH)));
        }
        let ghost p_copy = p;
        slots.remove(k);
        slots.insert(k, Some(p));
        proof {
            assert forall|k2: int| 0 <= k2 < n implies (#[trigger] slots[k2] matches Some(q) ==> {
                &&& q.part_number == k2 + 1
                &&& exists|j: int| m <= j < orig.len() && orig[j] == q
            }) by {
                if k2 == k {
                    assert(orig[m as int] == p_copy);
                }
            }
        }
    }
    let mut c: usize = 0;
    while c < n
        invariant
            parts@ == orig,
            n == parts_count,
            m == 0,
            slots.len() == n,
            forall|k: int|
                0 <= k < n ==> (#[trigger] slots[k] matches Some(p) ==> {
                    &&& p.part_number == k + 1
                    &&& exists|j: int| 0 <= j < orig.len() && orig[j] == p
                }),
            forall|j: int|
                0 <= j < orig.len() ==> {
                    &&& 1 <= #[trigger] orig[j].part_number <= n
                    &&& slots[orig[j].part_number - 1] == Some(orig[j])
                },
            forall|i: int, j: int|
                0 <= i < j < orig.len() ==> #[trigger] orig[i].part_number != #[trigger] orig[j].part_number,
            forall|k: int| 0 <= k < c ==> slots[k] is Some,
        decreases n - c,
    {
        if slots[c].is_none() {
            proof {
                if has_number(orig, (c + 1) as nat) {
                    let j = choose|j: int| 0 <= j < orig.len() && orig[j].part_number == c + 1;
                    assert(slots[orig[j].part_number - 1] == Some(orig[j]));
                }
                assert(!has_number(orig, (c + 1) as nat));
                assert(!numbers_exactly(orig, n as nat));
            }
            return Err(Error::StaticStr(StaticStrError(PART_LIST_MISMATCH)));
        }
        c = c + 1;
    }
    proof {
        assert forall|k: nat| 1 <= k <= n implies #[trigger] has_number(orig, k) by {
            let q = slots[k - 1].unwrap();
            let j = choose|j: int| 0 <= j < orig.len() && orig[j] == q;
            assert(orig[j].part_number == k);
        }
        assert(numbers_exactly(orig, n as nat));
    }
    let ghost filled = slots@;
    let mut v: Vec<CompletedPart> = Vec::new();
    let mut i: usize = 0;
    while i < n
        invariant
            parts@ == orig,
            n == parts_count,
            slots.len() == n,
            filled.len() == n,
            v.len() == i,
            i <= n,
            forall|k: int| i <= k < n ==> slots[k] == filled[k],
            forall|k: int| 0 <= k < n ==> (#[trigger] filled[k] matches Some(p) ==> {
                &&& p.part_number == k + 1
                &&& exists|j: int| 0 <= j < orig.len() && orig[j] == p
            }),
            forall|k: int| 0 <= k < n ==> #[trigger] filled[k] is Some,
            forall|k: int| 0 <= k < i ==> Some(#[trigger] v[k]) == filled[k],
        decreases n - i,
    {
        let s = slots.remove(i);
        slots.insert(i, None);
        assert(s == filled[i as int]);
        v.push(s.unwrap());
        i = i + 1;
    }
    proof {
        assert forall|i: int| 0 <= i < v.len() implies #[trigger] v[i].part_number == i + 1 by {
            assert(filled[i] is Some);
        }
        assert forall|i: int| 0 <= i < v.len() implies #[trigger] orig.contains(v[i]) by {
            assert(filled[i] is Some);
            let j = choose|j: int| 0 <= j < orig.len() && orig[j] == filled[i].unwrap();
            assert(parts[j] == v[i]);
        }
        assert(v.len() == parts_count);
    }
    Ok(v)
}

} // verus!
