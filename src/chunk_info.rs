use vstd::prelude::*;

verus! {

/// A byte range `[start, end)` of the input, handed to one worker.
pub struct ChunkInfo {
    /// The first byte of the range.
    pub start: u64,
    /// One past the last byte of the range.
    pub end: u64,
    /// The number of bytes in the range.
    pub size: u64,
}

impl ChunkInfo {
    /// A range is well formed when it does not end before it starts and its
    /// size is the distance between its ends.
    pub open spec fn wf(&self) -> bool {
        &&& self.start <= self.end
        &&& self.size == self.end - self.start
    }

    /// The range `[start, end)`.
    pub fn new(start: u64, end: u64) -> (r: ChunkInfo)
        requires
            start <= end,
        ensures
            r.wf(),
            r.start == start,
            r.end == end,
    {
        ChunkInfo { start, end, size: end - start }
    }
}

} // verus!
