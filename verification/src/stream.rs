//! A forward-only cursor over bytes held in memory.

use crate::error::Error;
use vstd::prelude::*;

verus! {

/// The smallest of three numbers.
pub open spec fn min3(a: int, b: int, c: int) -> int {
    if a <= b && a <= c {
        a
    } else if b <= c {
        b
    } else {
        c
    }
}

/// A byte source that can only be read forward: what has been handed out is
/// gone, and how much is left cannot be asked.
///
/// A stream may hand out its bytes in pieces: it never gives more than
/// `limit` bytes to one call of `read`, as a pipe or a socket may give less
/// than was asked for.
pub struct ByteStream {
    data: Vec<u8>,
    pos: usize,
    limit: usize,
}

impl ByteStream {
    #[verifier::type_invariant]
    spec fn inv(self) -> bool {
        self.pos <= self.data.len() && self.limit >= 1
    }

    /// The bytes that have not been read yet, in the order in which they will come.
    pub closed spec fn remaining(self) -> Seq<u8> {
        self.data@.skip(self.pos as int)
    }

    /// The most bytes that one call of `read` hands out; at least 1.
    pub closed spec fn limit(self) -> int {
        self.limit as int
    }

    /// A stream that will deliver `data` from its first byte on, as many bytes
    /// at a time as are asked for.
    pub fn new(data: Vec<u8>) -> (s: Self)
        ensures
            s.remaining() == data@,
            s.limit() == usize::MAX,
    {
        ByteStream { data, pos: 0, limit: usize::MAX }
    }

    /// A stream that will deliver `data` from its first byte on, at most
    /// `limit` bytes at a time (one at a time where `limit` is 0).
    pub fn with_limit(data: Vec<u8>, limit: usize) -> (s: Self)
        ensures
            s.remaining() == data@,
            s.limit() == if limit == 0 {
                1
            } else {
                limit as int
            },
    {
        ByteStream { data, pos: 0, limit: if limit == 0 { 1 } else { limit } }
    }

    /// Reads the next byte, or reports that the stream is exhausted.
    pub fn next_byte(&mut self) -> (r: Option<u8>)
        ensures
            final(self).limit() == old(self).limit(),
            old(self).remaining().len() == 0 ==> r.is_none() && final(self).remaining()
                == old(self).remaining(),
            old(self).remaining().len() > 0 ==> r == Some(old(self).remaining()[0])
                && final(self).remaining() == old(self).remaining().skip(1),
    {
        proof {
            use_type_invariant(&*self);
        }
        if self.pos < self.data.len() {
            let b: u8 = self.data[self.pos];
            self.pos = self.pos + 1;
            assert(self.remaining() == old(self).remaining().skip(1));
            Some(b)
        } else {
            None
        }
    }

    /// Reads bytes into the front of `buf` and returns how many: as many as
    /// `buf` has room for, the stream still has, and the stream hands out at a
    /// time. Zero means that the stream is exhausted (or that `buf` is empty).
    /// The rest of `buf` keeps its values.
    pub fn read(&mut self, buf: &mut [u8]) -> (n: usize)
        ensures
            n == min3(
                old(buf)@.len() as int,
                old(self).remaining().len() as int,
                old(self).limit(),
            ),
            n == 0 <==> old(buf)@.len() == 0 || old(self).remaining().len() == 0,
            final(self).limit() == old(self).limit(),
            final(self).remaining() == old(self).remaining().skip(n as int),
            final(buf)@ == old(self).remaining().take(n as int) + old(buf)@.skip(n as int),
    {
        proof {
            use_type_invariant(&*self);
        }
        let avail: usize = self.data.len() - self.pos;
        let want: usize = if buf.len() <= self.limit {
            buf.len()
        } else {
            self.limit
        };
        let n: usize = if want <= avail {
            want
        } else {
            avail
        };
        let base: usize = self.pos;
        let mut i: usize = 0;
        while i < n
            invariant
                i <= n <= buf.len(),
                buf.len() == old(buf).len(),
                base + n <= self.data.len(),
                self.pos == base,
                self.limit == old(self).limit,
                self.data == old(self).data,
                buf@ == old(self).remaining().take(i as int) + old(buf)@.skip(i as int),
            decreases n - i,
        {
            buf[i] = self.data[base + i];
            i = i + 1;
            assert(buf@ =~= old(self).remaining().take(i as int) + old(buf)@.skip(i as int));
        }
        self.pos = base + n;
        assert(self.remaining() =~= old(self).remaining().skip(n as int));
        n
    }

    /// Fills `buf` from the stream, with as many reads as that takes.
    ///
    /// Fails with `UnexpectedEof` where the stream holds fewer bytes than `buf`
    /// has room for: all of them were then read, into the front of `buf`.
    pub fn read_exact(&mut self, buf: &mut [u8]) -> (r: Result<(), Error>)
        ensures
            final(self).limit() == old(self).limit(),
            final(buf)@.len() == old(buf)@.len(),
            old(buf)@.len() <= old(self).remaining().len() ==> {
                &&& r.is_ok()
                &&& final(buf)@ == old(self).remaining().take(old(buf)@.len() as int)
                &&& final(self).remaining() == old(self).remaining().skip(old(buf)@.len() as int)
            },
            old(buf)@.len() > old(self).remaining().len() ==> {
                &&& r == Err::<(), Error>(Error::UnexpectedEof)
                &&& final(buf)@ == old(self).remaining() + old(buf)@.skip(
                    old(self).remaining().len() as int,
                )
                &&& final(self).remaining().len() == 0
            },
    {
        let n: usize = buf.len();
        let mut done: usize = 0;
        while done < n
            invariant
                done <= n,
                n == old(buf)@.len(),
                buf@.len() == n,
                done <= old(self).remaining().len(),
                self.limit() == old(self).limit(),
                self.remaining() == old(self).remaining().skip(done as int),
                buf@ == old(self).remaining().take(done as int) + old(buf)@.skip(done as int),
            decreases n - done,
        {
            let (_, rest) = buf.split_at_mut(done);
            let got: usize = self.read(rest);
            if got == 0 {
                assert(old(self).remaining().take(done as int) =~= old(self).remaining());
                return Err(Error::UnexpectedEof);
            }
            assert(buf@ =~= old(self).remaining().take(done + got) + old(buf)@.skip(done + got));
            assert(self.remaining() =~= old(self).remaining().skip(done + got));
            done = done + got;
        }
        assert(buf@ =~= old(self).remaining().take(n as int));
        Ok(())
    }
}

} // verus!
