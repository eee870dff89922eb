//! The reassembly buffer: a small FIFO of decoded nibble values.  The
//! decoder appends nibbles at the tail as tokens are recognized and
//! removes them from the head two at a time; between calls it holds at
//! most one unpaired nibble.

use vstd::prelude::*;

verus! {

/// A byte queue: append at the tail, read-and-remove from the head.
pub struct Buffer {
    inner: Vec<u8>,
}

impl View for Buffer {
    type V = Seq<u8>;

    closed spec fn view(&self) -> Seq<u8> {
        self.inner@
    }
}

impl Buffer {
    /// Creates an empty buffer.
    pub fn new() -> (r: Buffer)
        ensures
            r@ == Seq::<u8>::empty(),
    {
        Buffer { inner: Vec::new() }
    }

    /// The queued bytes, head first (diagnostics only).
    pub fn get_inner(&self) -> (r: &[u8])
        ensures
            r@ == self@,
    {
        self.inner.as_slice()
    }

    /// Drops everything queued.
    pub fn clear(&mut self)
        ensures
            final(self)@ == Seq::<u8>::empty(),
    {
        self.inner = Vec::new();
    }

    /// How many bytes are queued.
    pub fn len(&self) -> (r: usize)
        ensures
            r == self@.len(),
    {
        self.inner.len()
    }

    /// Appends `buf` at the tail; consumes all of it.
    pub fn write(&mut self, buf: &[u8]) -> (r: usize)
        ensures
            final(self)@ == old(self)@ + buf@,
            r == buf@.len(),
    {
        let mut i: usize = 0;
        while i < buf.len()
            invariant
                i <= buf@.len(),
                self@ == old(self)@ + buf@.take(i as int),
            decreases buf@.len() - i,
        {
            self.inner.push(buf[i]);
            assert(old(self)@ + buf@.take(i as int) + seq![buf@[i as int]] =~= old(self)@
                + buf@.take(i + 1));
            i += 1;
        }
        assert(buf@.take(buf@.len() as int) =~= buf@);
        i
    }

    /// Removes up to `count` bytes from the head, in arrival order, and
    /// returns them; returns fewer only when fewer are queued.
    pub fn read(&mut self, count: usize) -> (r: Vec<u8>)
        ensures
            r@.len() == if count <= old(self)@.len() {
                count as int
            } else {
                old(self)@.len() as int
            },
            r@ == old(self)@.take(r@.len() as int),
            final(self)@ == old(self)@.skip(r@.len() as int),
    {
        let k = if count <= self.inner.len() {
            count
        } else {
            self.inner.len()
        };
        let mut r: Vec<u8> = Vec::new();
        let mut i: usize = 0;
        while i < k
            invariant
                i <= k <= self@.len(),
                self@ == old(self)@,
                r@ == self@.take(i as int),
            decreases k - i,
        {
            r.push(self.inner[i]);
            assert(self@.take(i as int) + seq![self@[i as int]] =~= self@.take(i + 1));
            i += 1;
        }
        let mut rest: Vec<u8> = Vec::new();
        let mut j: usize = k;
        while j < self.inner.len()
            invariant
                k <= j <= self@.len(),
                self@ == old(self)@,
                rest@ == self@.subrange(k as int, j as int),
            decreases self@.len() - j,
        {
            rest.push(self.inner[j]);
            assert(self@.subrange(k as int, j as int) + seq![self@[j as int]] =~= self@.subrange(
                k as int,
                j + 1,
            ));
            j += 1;
        }
        self.inner = rest;
        assert(self@ =~= old(self)@.skip(k as int));
        r
    }

    /// Flushing a queue is a no-op: nothing is buffered downstream.
    pub fn flush(&mut self) -> (r: Result<(), crate::CodecError>)
        ensures
            final(self)@ == old(self)@,
            r is Ok,
    {
        Ok(())
    }
}

} // verus!
