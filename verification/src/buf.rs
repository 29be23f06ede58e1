//! A growable byte buffer that is consumed from the front.
//!
//! One `Buf` stands for the readable input window of a connection, another
//! for its appendable output window.  The state machine only ever reads the
//! window and consumes an explicitly chosen prefix of it.

use vstd::prelude::*;

verus! {

/// A byte window: bytes are appended at the back and consumed at the front.
///
/// The view of a `Buf` is the sequence of bytes that are currently readable.
pub struct Buf {
    data: Vec<u8>,
}

impl View for Buf {
    type V = Seq<u8>;

    closed spec fn view(&self) -> Seq<u8> {
        self.data@
    }
}

impl Buf {
    /// An empty buffer.
    pub fn new() -> (r: Buf)
        ensures
            r@ =~= Seq::<u8>::empty(),
    {
        Buf { data: Vec::new() }
    }

    /// The number of readable bytes.
    pub fn len(&self) -> (r: usize)
        ensures
            r == self@.len(),
    {
        self.data.len()
    }

    /// Whether no byte is readable.
    pub fn empty(&self) -> (r: bool)
        ensures
            r == (self@.len() == 0),
    {
        self.len() == 0
    }

    /// The readable window as a byte slice.
    pub fn as_slice(&self) -> (r: &[u8])
        ensures
            r@ == self@,
    {
        self.data.as_slice()
    }

    /// The byte at position `i` of the readable window.
    pub fn at(&self, i: usize) -> (r: u8)
        requires
            i < self@.len(),
        ensures
            r == self@[i as int],
    {
        self.data[i]
    }

    /// Appends the given bytes at the back of the window.
    pub fn extend(&mut self, bytes: &[u8])
        ensures
            final(self)@ =~= old(self)@ + bytes@,
    {
        let n = bytes.len();
        let mut i: usize = 0;
        while i < n
            invariant
                i <= n,
                n == bytes@.len(),
                self@ =~= old(self)@ + bytes@.take(i as int),
            decreases n - i,
        {
            proof {
                assert(bytes@.take(i + 1) =~= bytes@.take(i as int).push(bytes@[i as int]));
            }
            self.data.push(bytes[i]);
            i = i + 1;
        }
        proof {
            assert(bytes@.take(n as int) =~= bytes@);
        }
    }

    /// Drops the first `n` readable bytes.
    pub fn consume(&mut self, n: usize)
        requires
            n <= old(self)@.len(),
        ensures
            final(self)@ =~= old(self)@.skip(n as int),
    {
        let len = self.data.len();
        let mut rest: Vec<u8> = Vec::new();
        let mut i: usize = n;
        while i < len
            invariant
                n <= i <= len,
                len == self@.len(),
                self@ == old(self)@,
                rest@ =~= self@.subrange(n as int, i as int),
            decreases len - i,
        {
            proof {
                assert(self@.subrange(n as int, i + 1) =~= self@.subrange(n as int, i as int).push(
                    self@[i as int],
                ));
            }
            let b = self.data[i];
            rest.push(b);
            i = i + 1;
        }
        self.data = rest;
        proof {
            assert(old(self)@.subrange(n as int, len as int) =~= old(self)@.skip(n as int));
        }
    }

    /// Copies the readable bytes `from..to` onto the end of `dst`.
    pub fn copy_range_into(&self, from: usize, to: usize, dst: &mut Vec<u8>)
        requires
            from <= to <= self@.len(),
        ensures
            final(dst)@ =~= old(dst)@ + self@.subrange(from as int, to as int),
    {
        let mut i: usize = from;
        while i < to
            invariant
                from <= i <= to <= self@.len(),
                dst@ =~= old(dst)@ + self@.subrange(from as int, i as int),
            decreases to - i,
        {
            let b = self.at(i);
            proof {
                assert(self@.subrange(from as int, i + 1) =~= self@.subrange(
                    from as int,
                    i as int,
                ).push(self@[i as int]));
            }
            dst.push(b);
            i = i + 1;
        }
    }
}

/// The bytes `from..to` of `v`, as a fresh vector.
pub fn copy_range(v: &[u8], from: usize, to: usize) -> (r: Vec<u8>)
    requires
        from <= to <= v@.len(),
    ensures
        r@ =~= v@.subrange(from as int, to as int),
{
    let mut r: Vec<u8> = Vec::new();
    let mut i = from;
    while i < to
        invariant
            from <= i <= to <= v@.len(),
            r@ =~= v@.subrange(from as int, i as int),
        decreases to - i,
    {
        proof {
            assert(v@.subrange(from as int, i + 1) =~= v@.subrange(from as int, i as int).push(
                v@[i as int],
            ));
        }
        r.push(v[i]);
        i = i + 1;
    }
    r
}

/// Appends `src` onto `dst`.
pub fn push_bytes(dst: &mut Vec<u8>, src: &[u8])
    ensures
        final(dst)@ =~= old(dst)@ + src@,
{
    let n = src.len();
    let mut i: usize = 0;
    while i < n
        invariant
            i <= n,
            n == src@.len(),
            dst@ =~= old(dst)@ + src@.take(i as int),
        decreases n - i,
    {
        proof {
            assert(src@.take(i + 1) =~= src@.take(i as int).push(src@[i as int]));
        }
        dst.push(src[i]);
        i = i + 1;
    }
    proof {
        assert(src@.take(n as int) =~= src@);
    }
}

} // verus!
