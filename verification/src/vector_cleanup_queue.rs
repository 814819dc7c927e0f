//! Chunks whose delete is still owed, first come first served.

use crate::hex;
use crate::hex::{hex32, parse_hex32};
use crate::text;
use vstd::prelude::*;

verus! {

/// The queue.
pub struct VectorCleanupQueue {
    chunks: Vec<[u8; 32]>,
}

impl View for VectorCleanupQueue {
    type V = Seq<[u8; 32]>;

    closed spec fn view(&self) -> Seq<[u8; 32]> {
        self.chunks@
    }
}

/// Every text stands for a chunk, in order.
pub open spec fn chunks_written(lines: Seq<Seq<char>>, chunks: Seq<[u8; 32]>) -> bool {
    &&& lines.len() == chunks.len()
    &&& forall|i: int|
        0 <= i < lines.len() ==> hex::bytes_of_hex(#[trigger] lines[i], 32) == Some(chunks[i]@)
}

impl Default for VectorCleanupQueue {
    /// An empty queue.
    fn default() -> (r: Self)
        ensures
            r@ == Seq::<[u8; 32]>::empty(),
    {
        VectorCleanupQueue::new()
    }
}

impl VectorCleanupQueue {
    /// An empty queue.
    pub fn new() -> (r: Self)
        ensures
            r@ == Seq::<[u8; 32]>::empty(),
    {
        VectorCleanupQueue { chunks: Vec::new() }
    }

    /// Puts a chunk last.
    pub fn enqueue_delete(&mut self, chunk_id: [u8; 32])
        ensures
            final(self)@ == old(self)@.push(chunk_id),
    {
        self.chunks.push(chunk_id);
    }

    /// Takes the first chunk.
    pub fn dequeue(&mut self) -> (r: Option<[u8; 32]>)
        ensures
            match r {
                Some(c) => old(self)@.len() > 0 && c == old(self)@[0] && final(self)@ == old(
                    self,
                )@.drop_first(),
                None => old(self)@.len() == 0 && final(self)@ == old(self)@,
            },
    {
        if self.chunks.len() == 0 {
            return None;
        }
        let c = self.chunks.remove(0);
        assert(self@ =~= old(self)@.drop_first());
        Some(c)
    }

    /// The number of chunks.
    pub fn depth(&self) -> (n: usize)
        ensures
            n == self@.len(),
    {
        self.chunks.len()
    }

    /// The chunks in hexadecimal, for a durable copy.
    pub fn to_lines(&self) -> (r: Vec<String>)
        ensures
            r@.len() == self@.len(),
            forall|i: int| 0 <= i < r@.len() ==> (#[trigger] r@[i])@ == hex::hex_of(self@[i]@),
            chunks_written(text::texts(r@), self@),
    {
        let mut out: Vec<String> = Vec::new();
        let mut i: usize = 0;
        while i < self.chunks.len()
            invariant
                i <= self.chunks.len(),
                out.len() == i,
                forall|j: int| 0 <= j < i ==> (#[trigger] out@[j])@ == hex::hex_of(self@[j]@),
            decreases self.chunks.len() - i,
        {
            out.push(hex32(&self.chunks[i]));
            i = i + 1;
        }
        proof {
            assert forall|j: int| 0 <= j < text::texts(out@).len() implies hex::bytes_of_hex(
                #[trigger] text::texts(out@)[j],
                32,
            ) == Some(self@[j]@) by {
                assert(out@[j]@ == hex::hex_of(self@[j]@));
                hex::lemma_hex_reads_back(self@[j]@);
            }
        }
        out
    }

    /// Reads a durable copy; `None` if some line is no chunk.
    pub fn from_lines(lines: &Vec<String>) -> (r: Option<Self>)
        ensures
            match r {
                Some(q) => chunks_written(text::texts(lines@), q@),
                None => exists|i: int|
                    0 <= i < lines@.len() && hex::bytes_of_hex(#[trigger] lines@[i]@, 32) is None,
            },
    {
        let mut chunks: Vec<[u8; 32]> = Vec::new();
        let mut i: usize = 0;
        while i < lines.len()
            invariant
                i <= lines.len(),
                chunks.len() == i,
                forall|j: int|
                    0 <= j < i ==> hex::bytes_of_hex(#[trigger] lines@[j]@, 32) == Some(chunks@[j]@),
            decreases lines.len() - i,
        {
            match parse_hex32(lines[i].as_str()) {
                Some(c) => {
                    chunks.push(c);
                },
                None => {
                    assert(hex::bytes_of_hex(lines@[i as int]@, 32) is None);
                    return None;
                },
            }
            i = i + 1;
        }
        let q = VectorCleanupQueue { chunks };
        proof {
            assert forall|j: int| 0 <= j < text::texts(lines@).len() implies hex::bytes_of_hex(
                #[trigger] text::texts(lines@)[j],
                32,
            ) == Some(q@[j]@) by {
                assert(hex::bytes_of_hex(lines@[j]@, 32) == Some(q@[j]@));
            }
        }
        Some(q)
    }
}

/// A durable copy reads back as the queue it was made from.
pub proof fn law_lines_read_back(lines: Seq<Seq<char>>, a: Seq<[u8; 32]>, b: Seq<[u8; 32]>)
    requires
        chunks_written(lines, a),
        chunks_written(lines, b),
    ensures
        a == b,
{
    assert forall|i: int| 0 <= i < a.len() implies a[i] == b[i] by {
        assert(hex::bytes_of_hex(lines[i], 32) == Some(a[i]@));
        assert(a[i] =~= b[i]);
    }
    assert(a =~= b);
}

} // verus!
