//! The color table of an image: stored in the header for up to 16 colors, or
//! behind the pixel data, at the very end of the file, for 256.

use crate::error::Error;
use crate::header::Header;
use crate::stream::ByteStream;
use vstd::prelude::*;

verus! {

/// The byte that stands before a 256-color palette.
pub const PALETTE_MARKER: u8 = 0x0C;

/// Bytes of a 256-color palette.
pub const PALETTE_LENGTH: usize = 768;

/// Bytes of a 256-color palette and its marker.
pub const WINDOW_LENGTH: usize = 769;

/// Whether `raw` ends with a marker and the 768 bytes of a palette.
pub open spec fn has_trailing_palette(raw: Seq<u8>) -> bool {
    raw.len() >= WINDOW_LENGTH && raw[raw.len() - WINDOW_LENGTH] == PALETTE_MARKER
}

/// The last 768 bytes of `raw`.
pub open spec fn trailing_palette(raw: Seq<u8>) -> Seq<u8> {
    raw.skip(raw.len() - PALETTE_LENGTH)
}

/// A stream that ends with the marker and a table of 768 bytes has a trailing
/// palette, and it is that table, however many bytes come before the marker.
pub proof fn lemma_trailing_palette_found(preceding: Seq<u8>, table: Seq<u8>)
    requires
        table.len() == PALETTE_LENGTH,
    ensures
        has_trailing_palette(preceding + seq![PALETTE_MARKER] + table),
        trailing_palette(preceding + seq![PALETTE_MARKER] + table) == table,
{
    let raw = preceding + seq![PALETTE_MARKER] + table;
    assert(raw[raw.len() - WINDOW_LENGTH] == PALETTE_MARKER);
    assert(trailing_palette(raw) =~= table);
}

/// 769 zeros, and then `seen`: what a window of 769 bytes slides over when it
/// starts out filled with zeros.
spec fn padded(seen: Seq<u8>) -> Seq<u8> {
    Seq::new(WINDOW_LENGTH as nat, |i: int| 0u8) + seen
}

/// The ring `window`, whose oldest byte is at `pos`, holds the last 769 bytes
/// of `padded(seen)` in order.
spec fn window_holds(window: Seq<u8>, pos: int, seen: Seq<u8>) -> bool {
    &&& window.len() == WINDOW_LENGTH
    &&& 0 <= pos < WINDOW_LENGTH
    &&& forall|x: int|
        pos <= x < WINDOW_LENGTH ==> #[trigger] window[x] == padded(seen)[seen.len() + x - pos]
    &&& forall|x: int|
        0 <= x < pos ==> #[trigger] window[x] == padded(seen)[seen.len() + WINDOW_LENGTH - pos + x]
}

/// Reads `stream` to its end and copies its last 768 bytes to the front of
/// `buffer`, if the byte before them is the palette marker.
///
/// The stream cannot be asked for its length and cannot go back, so the bytes
/// pass through a ring of 769 bytes: each read fills the ring from the write
/// position to its end, and the position wraps around. When the stream is
/// exhausted, the ring holds its last 769 bytes, the oldest at the write
/// position.
///
/// Returns 256, the number of colors. Fails with `InvalidData`, and leaves
/// `buffer` as it was, where the stream holds fewer than 769 bytes or the first
/// of its last 769 is not the marker.
pub fn read_trailing_palette(stream: ByteStream, buffer: &mut [u8]) -> (r: Result<usize, Error>)
    requires
        old(buffer)@.len() >= PALETTE_LENGTH,
    ensures
        has_trailing_palette(stream.remaining()) ==> r == Ok::<usize, Error>(256) && final(buffer)@
            == trailing_palette(stream.remaining()) + old(buffer)@.skip(PALETTE_LENGTH as int),
        !has_trailing_palette(stream.remaining()) ==> r == Err::<usize, Error>(Error::InvalidData)
            && final(buffer)@ == old(buffer)@,
{
    let mut source = stream;
    let ghost raw = stream.remaining();
    let ghost mut seen: Seq<u8> = Seq::empty();
    let mut window: [u8; 769] = [0u8; 769];
    let mut pos: usize = 0;
    assert(raw.skip(0) =~= raw);
    assert(raw.take(0) =~= seen);
    loop
        invariant
            buffer@ == old(buffer)@,
            buffer@.len() >= PALETTE_LENGTH,
            window_holds(window@, pos as int, seen),
            seen.len() <= raw.len(),
            raw == stream.remaining(),
            seen == raw.take(seen.len() as int),
            source.remaining() == raw.skip(seen.len() as int),
        decreases raw.len() - seen.len(),
    {
        let ghost before = window@;
        let whole: &mut [u8] = &mut window;
        let (_, free) = whole.split_at_mut(pos);
        let read: usize = source.read(free);
        if read != 0 {
            proof {
                let chunk = raw.skip(seen.len() as int).take(read as int);
                let grown = seen + chunk;
                assert(grown =~= raw.take(grown.len() as int));
                assert(raw.skip(seen.len() as int).skip(read as int) =~= raw.skip(
                    grown.len() as int,
                ));
                assert forall|x: int| 0 <= x < WINDOW_LENGTH implies #[trigger] window@[x] == (
                if pos <= x < pos + read {
                    chunk[x - pos]
                } else {
                    before[x]
                }) by {}
                assert forall|k: int| 0 <= k < WINDOW_LENGTH + seen.len() implies padded(grown)[k]
                    == padded(seen)[k] by {}
                seen = grown;
            }
            pos = (pos + read) % WINDOW_LENGTH;
        } else {
            proof {
                assert(seen =~= raw);
                assert(window@[pos as int] == padded(raw)[raw.len() as int]);
                assert(has_trailing_palette(raw) <==> window@[pos as int] == PALETTE_MARKER);
            }
            if window[pos] != PALETTE_MARKER {
                return Err(Error::InvalidData);
            }
            let tail: usize = WINDOW_LENGTH - pos - 1;
            let mut k: usize = 0;
            while k < tail
                invariant
                    k <= tail,
                    tail == WINDOW_LENGTH - pos - 1,
                    pos < WINDOW_LENGTH,
                    buffer@.len() == old(buffer)@.len(),
                    buffer@.len() >= PALETTE_LENGTH,
                    forall|x: int| 0 <= x < k ==> #[trigger] buffer@[x] == window@[pos + 1 + x],
                    forall|x: int|
                        k <= x < buffer@.len() ==> #[trigger] buffer@[x] == old(buffer)@[x],
                decreases tail - k,
            {
                buffer[k] = window[pos + 1 + k];
                k = k + 1;
            }
            let mut k: usize = 0;
            while k < pos
                invariant
                    k <= pos,
                    tail == WINDOW_LENGTH - pos - 1,
                    pos < WINDOW_LENGTH,
                    buffer@.len() == old(buffer)@.len(),
                    buffer@.len() >= PALETTE_LENGTH,
                    forall|x: int| 0 <= x < tail ==> #[trigger] buffer@[x] == window@[pos + 1 + x],
                    forall|x: int| 0 <= x < k ==> #[trigger] buffer@[tail + x] == window@[x],
                    forall|x: int|
                        tail + k <= x < buffer@.len() ==> #[trigger] buffer@[x] == old(buffer)@[x],
                decreases pos - k,
            {
                buffer[tail + k] = window[k];
                k = k + 1;
            }
            proof {
                assert forall|x: int| 0 <= x < PALETTE_LENGTH implies buffer@[x]
                    == trailing_palette(raw)[x] by {
                    if x < tail {
                        assert(buffer@[x] == window@[pos + 1 + x]);
                    } else {
                        assert(buffer@[tail + (x - tail)] == window@[x - tail]);
                    }
                    assert(padded(raw)[raw.len() + 1 + x] == raw[raw.len() - PALETTE_LENGTH + x]);
                }
            }
            assert(buffer@ =~= trailing_palette(raw) + old(buffer)@.skip(PALETTE_LENGTH as int));
            return Ok(256);
        }
    }
}

/// Copies the first `colors` colors of the header's palette to the front of
/// `buffer`, three bytes each: red, green, blue.
pub fn copy_embedded_palette(header: &Header, colors: usize, buffer: &mut [u8])
    requires
        colors <= 16,
        old(buffer)@.len() >= 3 * colors,
    ensures
        final(buffer)@ == header.palette_bytes().take(3 * colors) + old(buffer)@.skip(3 * colors),
{
    let mut i: usize = 0;
    while i < colors
        invariant
            i <= colors <= 16,
            buffer@.len() == old(buffer)@.len(),
            buffer@.len() >= 3 * colors,
            forall|x: int| 0 <= x < 3 * i ==> #[trigger] buffer@[x] == header.palette_bytes()[x],
            forall|x: int| 3 * i <= x < buffer@.len() ==> #[trigger] buffer@[x] == old(buffer)@[x],
        decreases colors - i,
    {
        let color: [u8; 3] = header.palette[i];
        buffer[3 * i] = color[0];
        buffer[3 * i + 1] = color[1];
        buffer[3 * i + 2] = color[2];
        i = i + 1;
    }
    assert(buffer@ =~= header.palette_bytes().take(3 * colors) + old(buffer)@.skip(3 * colors));
}

} // verus!
