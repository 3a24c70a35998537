//! Run-length decoding of the pixel data.
//!
//! A byte below `0xC0` stands for itself. A byte `0xC0 + n` announces a run:
//! the byte that follows it is repeated `n` times.

use crate::error::Error;
use crate::stream::ByteStream;
use vstd::prelude::*;

verus! {

/// Smallest byte that announces a run.
pub const RUN_MARKER: u8 = 0xC0;

/// Where a decoder stands: the rest of a run that it has taken from the
/// encoded bytes and not delivered yet, and the encoded bytes that it has not
/// touched.
pub struct Decoding {
    pub pending: Seq<u8>,
    pub raw: Seq<u8>,
}

/// `n` times the byte `value`.
pub open spec fn repeated(value: u8, n: nat) -> Seq<u8> {
    Seq::new(n, |i: int| value)
}

impl Decoding {
    /// A decoder that has not started on `raw`.
    pub open spec fn start(raw: Seq<u8>) -> Decoding {
        Decoding { pending: Seq::empty(), raw }
    }

    /// The next decoded byte and where the decoder stands after it, or `None`
    /// where the encoded bytes end before they give another byte. Runs of
    /// length zero give nothing and are passed over. No encoded byte is taken
    /// before it is needed.
    pub open spec fn next(self) -> Option<(u8, Decoding)>
        decreases self.raw.len(),
    {
        if self.pending.len() > 0 {
            Some((self.pending[0], Decoding { pending: self.pending.skip(1), raw: self.raw }))
        } else if self.raw.len() == 0 {
            None
        } else if self.raw[0] < RUN_MARKER {
            Some((self.raw[0], Decoding { pending: Seq::empty(), raw: self.raw.skip(1) }))
        } else if self.raw.len() < 2 {
            None
        } else if self.raw[0] == RUN_MARKER {
            Decoding { pending: Seq::empty(), raw: self.raw.skip(2) }.next()
        } else {
            Some(
                (
                    self.raw[1],
                    Decoding {
                        pending: repeated(self.raw[1], (self.raw[0] - RUN_MARKER - 1) as nat),
                        raw: self.raw.skip(2),
                    },
                ),
            )
        }
    }

    /// The next `n` decoded bytes and where the decoder stands after them, or
    /// `None` where the encoded bytes give fewer.
    pub open spec fn take(self, n: nat) -> Option<(Seq<u8>, Decoding)>
        decreases n,
    {
        if n == 0 {
            Some((Seq::empty(), self))
        } else {
            match self.next() {
                None => None,
                Some((byte, after)) => match after.take((n - 1) as nat) {
                    None => None,
                    Some((bytes, end)) => Some((seq![byte] + bytes, end)),
                },
            }
        }
    }
}

/// `take(n)` gives `n` bytes.
pub proof fn lemma_take_len(d: Decoding, n: nat)
    ensures
        d.take(n) matches Some((bytes, _)) ==> bytes.len() == n,
    decreases n,
{
    if n > 0 {
        if let Some((_, after)) = d.next() {
            lemma_take_len(after, (n - 1) as nat);
        }
    }
}

/// Taking `a + b` bytes is taking `a` bytes and then `b` more.
pub proof fn lemma_take_add(d: Decoding, a: nat, b: nat)
    ensures
        d.take(a + b) == match d.take(a) {
            None => None::<(Seq<u8>, Decoding)>,
            Some((first, mid)) => match mid.take(b) {
                None => None,
                Some((second, end)) => Some((first + second, end)),
            },
        },
    decreases a,
{
    if a == 0 {
        if let Some((second, _)) = d.take(b) {
            assert(Seq::<u8>::empty() + second =~= second);
        }
    } else if let Some((byte, after)) = d.next() {
        lemma_take_add(after, (a - 1) as nat, b);
        if let Some((first, mid)) = after.take((a - 1) as nat) {
            if let Some((second, _)) = mid.take(b) {
                assert((seq![byte] + first) + second =~= seq![byte] + (first + second));
            }
        }
    }
}

/// Whether `body` is a complete encoding of `data`: a chain of single bytes
/// below the run marker and of runs of at least one byte, which decodes to
/// `data` and ends with the last of them.
pub open spec fn encodes(body: Seq<u8>, data: Seq<u8>) -> bool
    decreases body.len(),
{
    if body.len() == 0 {
        data.len() == 0
    } else if body[0] < RUN_MARKER {
        &&& data.len() >= 1
        &&& data[0] == body[0]
        &&& encodes(body.skip(1), data.skip(1))
    } else {
        let count = body[0] - RUN_MARKER;
        &&& body.len() >= 2
        &&& count >= 1
        &&& data.len() >= count
        &&& data.take(count) == repeated(body[1], count as nat)
        &&& encodes(body.skip(2), data.skip(count))
    }
}

/// A decoder delivers the rest of a run before it takes another encoded byte.
pub proof fn lemma_take_pending(d: Decoding)
    ensures
        d.take(d.pending.len()) == Some((d.pending, Decoding::start(d.raw))),
    decreases d.pending.len(),
{
    if d.pending.len() == 0 {
        assert(d.pending =~= Seq::empty());
    } else {
        let after = Decoding { pending: d.pending.skip(1), raw: d.raw };
        lemma_take_pending(after);
        assert(seq![d.pending[0]] + d.pending.skip(1) =~= d.pending);
    }
}

/// A decoder that starts on a complete encoding of `data`, whatever follows
/// it, delivers `data` and then stands exactly behind the encoding: it has
/// taken no byte of what follows, and holds nothing back.
pub proof fn lemma_decoding_consumes_encoding(body: Seq<u8>, data: Seq<u8>, tail: Seq<u8>)
    requires
        encodes(body, data),
    ensures
        Decoding::start(body + tail).take(data.len()) == Some((data, Decoding::start(tail))),
    decreases body.len(),
{
    let d = Decoding::start(body + tail);
    if body.len() == 0 {
        assert(body + tail =~= tail);
        assert(data =~= Seq::empty());
    } else if body[0] < RUN_MARKER {
        lemma_decoding_consumes_encoding(body.skip(1), data.skip(1), tail);
        assert((body + tail).skip(1) =~= body.skip(1) + tail);
        assert(seq![data[0]] + data.skip(1) =~= data);
    } else {
        let count = (body[0] - RUN_MARKER) as nat;
        let rest = data.skip(count as int);
        lemma_decoding_consumes_encoding(body.skip(2), rest, tail);
        assert((body + tail).skip(2) =~= body.skip(2) + tail);
        let (first, run) = d.next().unwrap();
        assert(run.pending.len() == count - 1);
        lemma_take_pending(run);
        lemma_take_add(run, (count - 1) as nat, rest.len());
        assert(seq![first] + (run.pending + rest) =~= data) by {
            assert(data.take(count as int) =~= seq![first] + run.pending);
            assert(data.take(count as int) + rest =~= data);
        }
    }
}

/// Decodes run-length encoded bytes as they are asked for.
pub struct Decompressor {
    stream: ByteStream,
    run_left: u8,
    run_value: u8,
}

impl View for Decompressor {
    type V = Decoding;

    closed spec fn view(&self) -> Decoding {
        Decoding {
            pending: repeated(self.run_value, self.run_left as nat),
            raw: self.stream.remaining(),
        }
    }
}

impl Decompressor {
    /// A decoder that starts at the next byte of `stream`.
    pub fn new(stream: ByteStream) -> (d: Self)
        ensures
            d@ == Decoding::start(stream.remaining()),
    {
        let d = Decompressor { stream, run_left: 0, run_value: 0 };
        assert(d@.pending =~= Seq::empty());
        d
    }

    /// Reads one decoded byte.
    ///
    /// Fails with `UnexpectedEof` where the encoded bytes end first; the decoder
    /// should not be used after that.
    pub fn read_u8(&mut self) -> (r: Result<u8, Error>)
        ensures
            match old(self)@.next() {
                Some((byte, after)) => r == Ok::<u8, Error>(byte) && final(self)@ == after,
                None => r == Err::<u8, Error>(Error::UnexpectedEof),
            },
    {
        if self.run_left > 0 {
            self.run_left = self.run_left - 1;
            assert(self@.pending =~= old(self)@.pending.skip(1));
            return Ok(self.run_value);
        }
        assert(self@.pending =~= Seq::empty());
        loop
            invariant
                self.run_left == 0,
                self@.next() == old(self)@.next(),
            decreases self.stream.remaining().len(),
        {
            let ghost before = self@;
            assert(before.pending =~= Seq::empty());
            let head: u8 = match self.stream.next_byte() {
                Some(b) => b,
                None => {
                    return Err(Error::UnexpectedEof);
                },
            };
            if head < RUN_MARKER {
                assert(self@ == Decoding { pending: Seq::empty(), raw: before.raw.skip(1) });
                return Ok(head);
            }
            let value: u8 = match self.stream.next_byte() {
                Some(b) => b,
                None => {
                    return Err(Error::UnexpectedEof);
                },
            };
            assert(self.stream.remaining() =~= before.raw.skip(2));
            if head > RUN_MARKER {
                self.run_left = head - RUN_MARKER - 1;
                self.run_value = value;
                assert(self@ == Decoding {
                    pending: repeated(value, (head - RUN_MARKER - 1) as nat),
                    raw: before.raw.skip(2),
                });
                return Ok(value);
            }
            assert(self@ == Decoding { pending: Seq::empty(), raw: before.raw.skip(2) });
        }
    }

    /// Fills `buf` with decoded bytes.
    ///
    /// Fails with `UnexpectedEof` where the encoded bytes give fewer than `buf`
    /// has room for; `buf` and the decoder should not be used after that.
    pub fn read_exact(&mut self, buf: &mut [u8]) -> (r: Result<(), Error>)
        ensures
            final(buf)@.len() == old(buf)@.len(),
            match old(self)@.take(old(buf)@.len()) {
                Some((bytes, after)) => r.is_ok() && final(buf)@ == bytes && final(self)@ == after,
                None => r == Err::<(), Error>(Error::UnexpectedEof),
            },
    {
        let n: usize = buf.len();
        let mut i: usize = 0;
        while i < n
            invariant
                i <= n,
                n == old(buf)@.len(),
                buf@.len() == n,
                old(self)@.take(i as nat) == Some((buf@.take(i as int), self@)),
            decreases n - i,
        {
            proof {
                lemma_take_add(old(self)@, i as nat, 1);
                lemma_take_add(old(self)@, (i + 1) as nat, (n - i - 1) as nat);
                reveal_with_fuel(Decoding::take, 2);
            }
            let ghost filled = buf@.take(i as int);
            match self.read_u8() {
                Ok(byte) => {
                    buf[i] = byte;
                    assert(buf@.take(i + 1) =~= filled + (seq![byte] + Seq::<u8>::empty()));
                },
                Err(e) => {
                    return Err(e);
                },
            }
            i = i + 1;
        }
        assert(buf@.take(n as int) =~= buf@);
        Ok(())
    }

    /// Stops decoding and hands the encoded stream back: it stands just behind
    /// the last encoded byte that the decoder took. What was left of a run is lost.
    pub fn finish(self) -> (stream: ByteStream)
        ensures
            stream.remaining() == self@.raw,
    {
        self.stream
    }
}

} // verus!
