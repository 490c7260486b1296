//! The bookkeeping of the streaming file writer: which bytes were taken in,
//! which of them the file already has, and which are still to be written.
//! The file itself is the caller's: it writes the pending bytes and reports
//! how many the system took.

use vstd::prelude::*;
use crate::buffer::{buffer_to_vec, buffered};
use crate::error::Error;

verus! {

/// The number of chunks that may wait between the reader of a field and the
/// writer of its file; with that many waiting, the reader is held back.
pub const QUEUE_CAPACITY: usize = 50;

/// The file that a writer will create, by its path.
pub struct CreateFuture {
    pub path: String,
}

impl CreateFuture {
    /// The request to create the file at `path`.
    pub fn new(path: String) -> (r: CreateFuture)
        ensures
            r.path == path,
    {
        CreateFuture { path }
    }
}

/// Whether the writer can take the next chunk.
#[derive(Clone, Copy, Debug, PartialEq, Eq, Structural)]
pub enum Progress {
    Ready,
    NotReady,
}

/// The state of one file's writer.
pub struct WriteSink {
    buffer: bytes::BytesMut,
    sent: Ghost<Seq<u8>>,
    flushed: Ghost<Seq<u8>>,
}

impl WriteSink {
    /// The bytes taken in and not yet written.
    pub closed spec fn pending(&self) -> Seq<u8> {
        buffered(self.buffer)
    }

    /// All bytes taken in so far, in order.
    pub closed spec fn sent(&self) -> Seq<u8> {
        self.sent@
    }

    /// All bytes that the file has so far, in order.
    pub closed spec fn flushed(&self) -> Seq<u8> {
        self.flushed@
    }

    /// What is taken in is what the file has, followed by what is pending.
    pub open spec fn wf(&self) -> bool {
        self.sent() == self.flushed() + self.pending()
    }

    /// The writer of a fresh file.
    pub fn new() -> (r: WriteSink)
        ensures
            r.wf(),
            r.sent() == Seq::<u8>::empty(),
            r.flushed() == Seq::<u8>::empty(),
            r.pending() == Seq::<u8>::empty(),
    {
        WriteSink {
            buffer: bytes::BytesMut::new(),
            sent: Ghost(Seq::empty()),
            flushed: Ghost(Seq::empty()),
        }
    }

    /// A copy of the bytes that are to be written next.
    pub fn pending_bytes(&self) -> (r: Vec<u8>)
        ensures
            r@ == self.pending(),
    {
        buffer_to_vec(&self.buffer)
    }

    /// Offers a chunk.  It is taken exactly where nothing is pending; it is
    /// then what is pending.  Otherwise nothing changes.
    pub fn start_send(&mut self, item: &[u8]) -> (taken: bool)
        requires
            old(self).wf(),
        ensures
            final(self).wf(),
            taken == (old(self).pending().len() == 0),
            final(self).flushed() == old(self).flushed(),
            taken ==> final(self).pending() == item@ && final(self).sent() == old(self).sent()
                + item@,
            !taken ==> final(self).pending() == old(self).pending() && final(self).sent() == old(self).sent(),
    {
        if !self.buffer.is_empty() {
            return false;
        }
        let size: usize = item.len();
        self.buffer = bytes::BytesMut::new();
        assert(buffered(self.buffer).len() + item@.len() == size);
        self.buffer.extend_from_slice(item);
        proof {
            assert(old(self).pending() =~= Seq::<u8>::empty());
            assert(Seq::<u8>::empty() + item@ =~= item@);
            assert(old(self).sent() =~= old(self).flushed());
            self.sent = Ghost(old(self).sent@ + item@);
        }
        true
    }

    /// Takes note of one write of the pending bytes, of which the system
    /// took the first `written`.  With nothing pending the writer is ready
    /// and nothing changes.  A write that took nothing fails with
    /// `Error::Io`.  Otherwise the bytes taken now belong to the file, and
    /// the writer is ready exactly where nothing is left pending.
    pub fn poll_complete(&mut self, written: usize) -> (r: Result<Progress, Error>)
        requires
            old(self).wf(),
            written <= old(self).pending().len(),
        ensures
            final(self).wf(),
            final(self).sent() == old(self).sent(),
            old(self).pending().len() == 0 ==> r == Ok::<Progress, Error>(Progress::Ready)
                && final(self).flushed() == old(self).flushed(),
            old(self).pending().len() > 0 && written == 0 ==> r == Err::<Progress, Error>(
                Error::Io,
            ) && final(self).flushed() == old(self).flushed(),
            old(self).pending().len() > 0 && written > 0 ==> r is Ok && final(self).flushed()
                == old(self).flushed() + old(self).pending().take(written as int) && final(self).pending() == old(self).pending().skip(written as int) && (r->Ok_0 == Progress::Ready
                <==> written == old(self).pending().len()),
    {
        if self.buffer.is_empty() {
            return Ok(Progress::Ready);
        }
        if written == 0 {
            return Err(Error::Io);
        }
        self.buffer.advance(written);
        proof {
            let before = old(self).pending();
            assert(before =~= before.take(written as int) + before.skip(written as int));
            self.flushed = Ghost(old(self).flushed@ + before.take(written as int));
            assert(self.sent@ =~= self.flushed@ + before.skip(written as int));
        }
        if self.buffer.is_empty() {
            Ok(Progress::Ready)
        } else {
            Ok(Progress::NotReady)
        }
    }
}

/// Once nothing is pending, the file holds exactly the bytes taken in,
/// whatever the chunks were in which they came and however the writes fell.
pub proof fn lemma_file_holds_what_was_sent(sink: WriteSink)
    requires
        sink.wf(),
        sink.pending().len() == 0,
    ensures
        sink.flushed() == sink.sent(),
{
    assert(sink.flushed() + sink.pending() =~= sink.flushed());
}

/// Two writers that took in the same bytes, in whatever chunks, leave the
/// same file once nothing is pending.
pub proof fn lemma_chunk_boundaries_do_not_matter(a: WriteSink, b: WriteSink)
    requires
        a.wf(),
        b.wf(),
        a.pending().len() == 0,
        b.pending().len() == 0,
        a.sent() == b.sent(),
    ensures
        a.flushed() == b.flushed(),
{
    lemma_file_holds_what_was_sent(a);
    lemma_file_holds_what_was_sent(b);
}

} // verus!
