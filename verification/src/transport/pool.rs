//! Frame buffer pools.
use vstd::prelude::*;

use crate::types::{
    AUDIO_FRAME_POOL_COUNT, AUDIO_MIN_SIZE, METADATA_FRAME_SIZE, VIDEO_FRAME_POOL_COUNT,
    VIDEO_MIN_SIZE,
};

verus! {

/// Simple reusable byte-buffer pool.
///
/// The pool holds at most `max_retained` buffers, all of them empty.
#[derive(Debug, Default)]
pub struct BufferPool {
    free: Vec<Vec<u8>>,
    max_retained: usize,
}

impl BufferPool {
    /// Number of buffers the pool keeps at most.
    pub closed spec fn limit(&self) -> nat {
        self.max_retained as nat
    }

    /// Number of buffers held.
    pub closed spec fn held(&self) -> nat {
        self.free@.len()
    }

    /// Every held buffer is empty and the pool respects its limit.
    pub closed spec fn wf(&self) -> bool {
        &&& self.free@.len() <= self.max_retained
        &&& forall|i: int| 0 <= i < self.free@.len() ==> #[trigger] self.free@[i]@.len() == 0
    }

    /// Create an empty pool that retains up to `max_retained` buffers.
    pub fn with_capacity(max_retained: usize) -> (r: BufferPool)
        ensures
            r.wf(),
            r.held() == 0,
            r.limit() == max_retained,
    {
        BufferPool { free: Vec::new(), max_retained }
    }

    /// Create an empty pool with default retention (8).
    pub fn new() -> (r: BufferPool)
        ensures
            r.wf(),
            r.held() == 0,
            r.limit() == 8,
    {
        BufferPool::with_capacity(8)
    }

    /// Video frame pool (libomtnet depth).
    pub fn video() -> (r: BufferPool)
        ensures
            r.wf(),
            r.held() == 0,
            r.limit() == VIDEO_FRAME_POOL_COUNT,
    {
        BufferPool::with_capacity(VIDEO_FRAME_POOL_COUNT)
    }

    /// Audio frame pool (libomtnet depth).
    pub fn audio() -> (r: BufferPool)
        ensures
            r.wf(),
            r.held() == 0,
            r.limit() == AUDIO_FRAME_POOL_COUNT,
    {
        BufferPool::with_capacity(AUDIO_FRAME_POOL_COUNT)
    }

    /// Metadata frame pool.
    pub fn metadata() -> (r: BufferPool)
        ensures
            r.wf(),
            r.held() == 0,
            r.limit() == 8,
    {
        BufferPool::with_capacity(8)
    }

    /// Take an empty buffer (reused when one is held), reserving at least
    /// `min_capacity` bytes.
    pub fn take(&mut self, min_capacity: usize) -> (r: Vec<u8>)
        requires
            old(self).wf(),
        ensures
            final(self).wf(),
            r@.len() == 0,
            final(self).limit() == old(self).limit(),
            final(self).held() == if old(self).held() > 0 {
                (old(self).held() - 1) as nat
            } else {
                0
            },
    {
        match self.free.pop() {
            Some(mut buf) => {
                buf.clear();
                buf.reserve(min_capacity);
                buf
            },
            None => Vec::with_capacity(min_capacity),
        }
    }

    /// Take a video-sized buffer.
    pub fn take_video(&mut self) -> (r: Vec<u8>)
        requires
            old(self).wf(),
        ensures
            final(self).wf(),
            r@.len() == 0,
            final(self).limit() == old(self).limit(),
            final(self).held() == if old(self).held() > 0 {
                (old(self).held() - 1) as nat
            } else {
                0
            },
    {
        self.take(VIDEO_MIN_SIZE)
    }

    /// Take an audio-sized buffer.
    pub fn take_audio(&mut self) -> (r: Vec<u8>)
        requires
            old(self).wf(),
        ensures
            final(self).wf(),
            r@.len() == 0,
            final(self).limit() == old(self).limit(),
            final(self).held() == if old(self).held() > 0 {
                (old(self).held() - 1) as nat
            } else {
                0
            },
    {
        self.take(AUDIO_MIN_SIZE)
    }

    /// Take a metadata-sized buffer.
    pub fn take_metadata(&mut self) -> (r: Vec<u8>)
        requires
            old(self).wf(),
        ensures
            final(self).wf(),
            r@.len() == 0,
            final(self).limit() == old(self).limit(),
            final(self).held() == if old(self).held() > 0 {
                (old(self).held() - 1) as nat
            } else {
                0
            },
    {
        self.take(METADATA_FRAME_SIZE)
    }

    /// Return a buffer to the pool; it is kept (emptied) while the pool is below its limit.
    pub fn give(&mut self, buf: Vec<u8>)
        requires
            old(self).wf(),
        ensures
            final(self).wf(),
            final(self).limit() == old(self).limit(),
            final(self).held() == if old(self).held() < old(self).limit() {
                old(self).held() + 1
            } else {
                old(self).held()
            },
    {
        let mut buf = buf;
        buf.clear();
        if self.free.len() < self.max_retained {
            self.free.push(buf);
        }
    }

    /// Number of free buffers.
    pub fn len(&self) -> (r: usize)
        ensures
            r == self.held(),
    {
        self.free.len()
    }

    /// Whether the pool is empty.
    pub fn is_empty(&self) -> (r: bool)
        ensures
            r == (self.held() == 0),
    {
        self.free.len() == 0
    }
}

} // verus!
