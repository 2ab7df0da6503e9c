//! Carving of a mapped file's byte range into sequential, disjoint chunks.
//!
//! The mapping itself lives with the caller; a `Chunker` owns the cursor
//! over its `len` bytes and is the only source of `Chunk`s, which is what
//! keeps any two live chunks from overlapping.
use vstd::prelude::*;

verus! {

/// Whether `chunks`, each a `(start, len)` span, follow one another from
/// byte 0 with no gap and end exactly at `end`.
pub open spec fn sequential(chunks: Seq<(nat, nat)>, end: nat) -> bool
    decreases chunks.len(),
{
    if chunks.len() == 0 {
        end == 0
    } else {
        let l = chunks.last();
        l.0 + l.1 == end && sequential(chunks.drop_last(), l.0)
    }
}

/// Whether byte `p` lies in the span `c`.
pub open spec fn holds_byte(c: (nat, nat), p: int) -> bool {
    c.0 <= p < c.0 + c.1
}

/// Whether byte `p` lies in one of `chunks`.
pub open spec fn covered(chunks: Seq<(nat, nat)>, p: int) -> bool {
    exists|i: int| 0 <= i < chunks.len() && holds_byte(#[trigger] chunks[i], p)
}

/// The end of each span of a sequential carving is at most the start of
/// every later span, and at most the end of the carving.
pub proof fn lemma_sequential_ordered(chunks: Seq<(nat, nat)>, end: nat)
    requires
        sequential(chunks, end),
    ensures
        forall|i: int| 0 <= i < chunks.len() ==> chunks[i].0 + chunks[i].1 <= end,
        forall|i: int, j: int|
            0 <= i < j < chunks.len() ==> chunks[i].0 + chunks[i].1 <= chunks[j].0,
    decreases chunks.len(),
{
    if chunks.len() > 0 {
        let l = chunks.last();
        let init = chunks.drop_last();
        lemma_sequential_ordered(init, l.0);
        assert forall|i: int, j: int| 0 <= i < j < chunks.len() implies chunks[i].0 + chunks[i].1
            <= chunks[j].0 by {
            assert(chunks[i] == init[i]);
            if j < chunks.len() - 1 {
                assert(chunks[j] == init[j]);
            }
        }
        assert forall|i: int| 0 <= i < chunks.len() implies chunks[i].0 + chunks[i].1 <= end by {
            if i < chunks.len() - 1 {
                assert(chunks[i] == init[i]);
            }
        }
    }
}

/// A sequential carving of `[0, end)` covers every byte of it exactly once:
/// each byte lies in some chunk, and no byte lies in two chunks.
pub proof fn lemma_chunks_partition(chunks: Seq<(nat, nat)>, end: nat)
    requires
        sequential(chunks, end),
    ensures
        forall|p: int| 0 <= p < end ==> #[trigger] covered(chunks, p),
        forall|i: int, j: int, p: int|
            0 <= i < chunks.len() && 0 <= j < chunks.len() && i != j ==> !(#[trigger] holds_byte(chunks[i], p) && #[trigger] holds_byte(chunks[j], p)),
    decreases chunks.len(),
{
    lemma_sequential_ordered(chunks, end);
    if chunks.len() > 0 {
        let l = chunks.last();
        let init = chunks.drop_last();
        lemma_chunks_partition(init, l.0);
        assert forall|p: int| 0 <= p < end implies #[trigger] covered(chunks, p) by {
            if p >= l.0 {
                assert(holds_byte(chunks[chunks.len() - 1], p));
            } else {
                assert(covered(init, p));
                let i = choose|i: int| 0 <= i < init.len() && holds_byte(#[trigger] init[i], p);
                assert(chunks[i] == init[i]);
            }
        }
        assert forall|i: int, j: int, p: int|
            0 <= i < chunks.len() && 0 <= j < chunks.len() && i != j implies !(#[trigger] holds_byte(chunks[i], p) && #[trigger] holds_byte(chunks[j], p)) by {
            if i < j {
                assert(chunks[i].0 + chunks[i].1 <= chunks[j].0);
            } else {
                assert(chunks[j].0 + chunks[j].1 <= chunks[i].0);
            }
        }
    }
}

/// A window onto bytes `[offset, offset + len)` of a mapped file.
#[derive(Debug)]
pub struct Chunk {
    offset: usize,
    len: usize,
}

impl View for Chunk {
    type V = (nat, nat);

    closed spec fn view(&self) -> (nat, nat) {
        (self.offset as nat, self.len as nat)
    }
}

impl Chunk {
    /// First byte of the window.
    pub fn offset(&self) -> (r: usize)
        ensures
            r == self@.0,
    {
        self.offset
    }

    /// Length of the window.
    pub fn len(&self) -> (r: usize)
        ensures
            r == self@.1,
    {
        self.len
    }
}

/// What a `Chunker` stands for: the mapped length, the cursor, and the spans
/// handed out so far.
pub struct ChunkerView {
    pub len: nat,
    pub offset: nat,
    pub issued: Seq<(nat, nat)>,
}

/// Single-consumer cursor that carves `[0, len)` into sequential chunks.
pub struct Chunker {
    len: usize,
    offset: usize,
    issued: Ghost<Seq<(nat, nat)>>,
}

impl View for Chunker {
    type V = ChunkerView;

    closed spec fn view(&self) -> ChunkerView {
        ChunkerView { len: self.len as nat, offset: self.offset as nat, issued: self.issued@ }
    }
}

impl Chunker {
    /// The cursor never passes the end, and the spans handed out so far
    /// carve exactly `[0, offset)`.
    pub open spec fn wf(&self) -> bool {
        &&& self@.offset <= self@.len
        &&& sequential(self@.issued, self@.offset)
    }

    /// A cursor at the start of a mapping of `len` bytes.
    pub fn new(len: usize) -> (r: Chunker)
        ensures
            r.wf(),
            r@.len == len,
            r@.offset == 0,
            r@.issued == Seq::<(nat, nat)>::empty(),
    {
        Chunker { len, offset: 0, issued: Ghost(Seq::empty()) }
    }

    /// Bytes not yet handed out.
    pub fn size(&self) -> (r: usize)
        requires
            self.wf(),
        ensures
            r == self@.len - self@.offset,
    {
        self.len - self.offset
    }

    /// Hands out the next `len` bytes.
    pub fn take_chunk(&mut self, len: usize) -> (r: Chunk)
        requires
            old(self).wf(),
            len <= old(self)@.len - old(self)@.offset,
        ensures
            final(self).wf(),
            final(self)@.len == old(self)@.len,
            final(self)@.offset == old(self)@.offset + len,
            final(self)@.issued == old(self)@.issued.push((old(self)@.offset, len as nat)),
            r@ == (old(self)@.offset, len as nat),
    {
        let chunk = Chunk { offset: self.offset, len };
        let ghost prev = self.issued@;
        self.issued = Ghost(prev.push((self.offset as nat, len as nat)));
        self.offset = self.offset + len;
        assert(self.issued@.drop_last() =~= prev);
        chunk
    }
}

/// Once a chunker is exhausted, the chunks it handed out cover every byte
/// of the mapping exactly once.
pub proof fn lemma_exhausted_chunker_covers(c: Chunker)
    requires
        c.wf(),
        c@.offset == c@.len,
    ensures
        forall|p: int| 0 <= p < c@.len ==> #[trigger] covered(c@.issued, p),
        forall|i: int, j: int, p: int|
            0 <= i < c@.issued.len() && 0 <= j < c@.issued.len() && i != j
                ==> !(#[trigger] holds_byte(c@.issued[i], p) && #[trigger] holds_byte(c@.issued[j], p)),
{
    lemma_chunks_partition(c@.issued, c@.len);
}

} // verus!
