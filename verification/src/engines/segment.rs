//! Segments of the log as byte images, the writer that fills the active
//! one, and the file operations that carry the images to a directory.

use crate::command::append_bytes;
use crate::log::SegmentView;
use vstd::prelude::*;
use vstd::slice::*;

verus! {

/// One segment of the log: what the file `<gen>.log` holds.
#[derive(Debug)]
pub struct Segment {
    pub gen: u64,
    pub data: Vec<u8>,
}

impl View for Segment {
    type V = SegmentView;

    open spec fn view(&self) -> SegmentView {
        SegmentView { gen: self.gen, data: self.data@ }
    }
}

/// The views of a run of segments.
pub open spec fn views(segments: Seq<Segment>) -> Seq<SegmentView> {
    Seq::new(segments.len(), |i: int| segments[i]@)
}

/// A change to the directory that holds the log.
#[derive(Debug)]
pub enum FileOp {
    /// Create the file of the segment `gen`, empty, unless it exists.
    Create { gen: u64 },
    /// Write `data` at the end of the file of the segment `gen`.
    Append { gen: u64, data: Vec<u8> },
    /// Delete the file of the segment `gen`.
    Remove { gen: u64 },
}

/// A file operation as mathematics.
pub enum FileOpView {
    Create { gen: u64 },
    Append { gen: u64, data: Seq<u8> },
    Remove { gen: u64 },
}

impl View for FileOp {
    type V = FileOpView;

    open spec fn view(&self) -> FileOpView {
        match self {
            FileOp::Create { gen } => FileOpView::Create { gen: *gen },
            FileOp::Append { gen, data } => FileOpView::Append { gen: *gen, data: data@ },
            FileOp::Remove { gen } => FileOpView::Remove { gen: *gen },
        }
    }
}

/// The writer of one segment: it keeps every byte written, knows how far
/// it has written, and which bytes it has not handed on yet.
#[derive(Debug)]
pub struct MyWriter {
    buf: Vec<u8>,
    flushed: usize,
}

impl MyWriter {
    /// Every byte written so far.
    pub closed spec fn data(&self) -> Seq<u8> {
        self.buf@
    }

    /// How many of the bytes written have been handed on by `flush`.
    pub closed spec fn flushed(&self) -> nat {
        self.flushed as nat
    }

    /// No more bytes are counted as handed on than were written.
    pub closed spec fn wf(&self) -> bool {
        self.flushed <= self.buf@.len()
    }

    /// What was written fits the offsets that a `usize` can hold.
    pub proof fn lemma_data_bounded(&self)
        ensures
            self.data().len() <= usize::MAX,
    {
        assert(self.buf.len() == self.buf@.len());
    }

    /// A writer at offset 0.
    pub fn new() -> (w: Self)
        ensures
            w.wf(),
            w.data() == Seq::<u8>::empty(),
            w.flushed() == 0,
    {
        MyWriter { buf: Vec::new(), flushed: 0 }
    }

    /// The offset at which the next byte will be written.
    pub fn offset(&self) -> (n: usize)
        ensures
            n == self.data().len(),
    {
        self.buf.len()
    }

    /// Writes `bytes` at the current offset and returns how many bytes
    /// were written: all of them.
    pub fn write(&mut self, bytes: &[u8]) -> (n: usize)
        requires
            old(self).wf(),
        ensures
            final(self).wf(),
            final(self).data() == old(self).data() + bytes@,
            final(self).flushed() == old(self).flushed(),
            n == bytes@.len(),
    {
        append_bytes(&mut self.buf, bytes);
        bytes.len()
    }

    /// Hands on the bytes written since the last `flush`.
    pub fn flush(&mut self) -> (pending: Vec<u8>)
        requires
            old(self).wf(),
        ensures
            final(self).wf(),
            final(self).data() == old(self).data(),
            final(self).flushed() == old(self).data().len(),
            pending@ == old(self).data().skip(old(self).flushed() as int),
    {
        let pending = slice_to_vec(slice_subrange(self.buf.as_slice(), self.flushed, self.buf.len()));
        self.flushed = self.buf.len();
        pending
    }

    /// The bytes written so far.
    pub fn as_slice(&self) -> (bytes: &[u8])
        ensures
            bytes@ == self.data(),
    {
        self.buf.as_slice()
    }

    /// Ends the writing and gives the bytes written.
    pub fn into_bytes(self) -> (bytes: Vec<u8>)
        ensures
            bytes@ == self.data(),
    {
        self.buf
    }
}

} // verus!
