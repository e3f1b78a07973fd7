//! A pool of reusable byte buffers.
use vstd::prelude::*;

use crate::river::window_views;

verus! {

/// `size` zero bytes.
pub open spec fn zeros(size: nat) -> Seq<u8> {
    Seq::new(size, |i: int| 0u8)
}

/// Keeps up to `max_buffers` released buffers, each reset to `buffer_size`
/// zero bytes, and hands them out again before allocating new ones.
pub struct BufferPool {
    buffers: Vec<Vec<u8>>,
    buffer_size: usize,
    max_buffers: usize,
}

impl BufferPool {
    /// The pooled buffers; the last one is handed out first.
    pub closed spec fn spec_buffers(&self) -> Seq<Seq<u8>> {
        window_views(self.buffers@)
    }

    pub closed spec fn spec_buffer_size(&self) -> nat {
        self.buffer_size as nat
    }

    pub closed spec fn spec_max_buffers(&self) -> nat {
        self.max_buffers as nat
    }

    pub fn new(buffer_size: usize, max_buffers: usize) -> (r: Self)
        ensures
            r.spec_buffers().len() == 0,
            r.spec_buffer_size() == buffer_size,
            r.spec_max_buffers() == max_buffers,
    {
        BufferPool { buffers: Vec::with_capacity(max_buffers), buffer_size, max_buffers }
    }

    /// The most recently released buffer, or a fresh zeroed one when the pool
    /// is empty.
    pub fn acquire(&mut self) -> (r: Vec<u8>)
        ensures
            final(self).spec_buffer_size() == old(self).spec_buffer_size(),
            final(self).spec_max_buffers() == old(self).spec_max_buffers(),
            old(self).spec_buffers().len() > 0 ==> r@ == old(self).spec_buffers().last()
                && final(self).spec_buffers() == old(self).spec_buffers().drop_last(),
            old(self).spec_buffers().len() == 0 ==> r@ == zeros(old(self).spec_buffer_size())
                && final(self).spec_buffers() == old(self).spec_buffers(),
    {
        match self.buffers.pop() {
            Some(b) => {
                assert(window_views(self.buffers@) =~= window_views(old(self).buffers@).drop_last());
                b
            },
            None => {
                let b = vec![0u8; self.buffer_size];
                assert(b@ =~= zeros(self.buffer_size as nat));
                b
            },
        }
    }

    /// Takes `buffer` back, zeroed and sized to `buffer_size`, unless the
    /// pool already holds `max_buffers`; then the buffer is dropped.
    pub fn release(&mut self, buffer: Vec<u8>)
        ensures
            final(self).spec_buffer_size() == old(self).spec_buffer_size(),
            final(self).spec_max_buffers() == old(self).spec_max_buffers(),
            final(self).spec_buffers() == if old(self).spec_buffers().len() < old(self).spec_max_buffers() {
                old(self).spec_buffers().push(zeros(old(self).spec_buffer_size()))
            } else {
                old(self).spec_buffers()
            },
    {
        if self.buffers.len() < self.max_buffers {
            let mut buffer = buffer;
            buffer.clear();
            buffer.resize(self.buffer_size, 0u8);
            assert(buffer@ =~= zeros(self.buffer_size as nat));
            self.buffers.push(buffer);
            assert(window_views(self.buffers@) =~= window_views(old(self).buffers@).push(zeros(self.buffer_size as nat)));
        }
    }

    /// Number of pooled buffers.
    pub fn available(&self) -> (r: usize)
        ensures
            r == self.spec_buffers().len(),
    {
        self.buffers.len()
    }
}

} // verus!
