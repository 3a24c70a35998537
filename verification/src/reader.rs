//! Reading the rows and the palette of a PCX image from a byte stream.

use crate::error::Error;
use crate::header::{header_bytes_ok, Header, HEADER_LENGTH};
use crate::palette::{
    copy_embedded_palette, has_trailing_palette, lemma_trailing_palette_found,
    read_trailing_palette, trailing_palette, PALETTE_LENGTH, PALETTE_MARKER,
};
use crate::pixels::{unpack_in_place, unpack_row};
use crate::rle::{
    encodes, lemma_decoding_consumes_encoding, lemma_take_add, lemma_take_len, Decoding,
    Decompressor,
};
use crate::stream::ByteStream;
use vstd::arithmetic::power2::lemma2_to64;
use vstd::prelude::*;

verus! {

/// The row of palette indices that a decoded lane holds: the lane itself at
/// 8 bits per pixel, its unpacked pixels below that.
pub open spec fn paletted_row(header: Header, lane: Seq<u8>) -> Seq<u8> {
    if header.bit_depth == 8 {
        lane
    } else {
        unpack_row(lane, header.bit_depth, header.size.0 as int)
    }
}

/// Where a decoder stands after `lanes` lanes of `lane_length` bytes were read
/// one after the other, or `None` where the encoded bytes end before that.
pub open spec fn after_lanes(d: Decoding, lane_length: nat, lanes: nat) -> Option<Decoding>
    decreases lanes,
{
    if lanes == 0 {
        Some(d)
    } else {
        match d.take(lane_length) {
            None => None,
            Some((_, after)) => after_lanes(after, lane_length, (lanes - 1) as nat),
        }
    }
}

/// Reading lane by lane consumes what reading all the bytes at once consumes.
pub proof fn lemma_after_lanes(d: Decoding, lane_length: nat, lanes: nat)
    ensures
        after_lanes(d, lane_length, lanes) == match d.take(lanes * lane_length) {
            None => None::<Decoding>,
            Some((_, after)) => Some(after),
        },
    decreases lanes,
{
    if lanes > 0 {
        assert(lanes * lane_length == lane_length + (lanes - 1) * lane_length)
            by (nonlinear_arith)
            requires
                lanes > 0,
        ;
        lemma_take_add(d, lane_length, ((lanes - 1) * lane_length) as nat);
        if let Some((_, after)) = d.take(lane_length) {
            lemma_after_lanes(after, lane_length, (lanes - 1) as nat);
        }
    } else {
        assert(lanes * lane_length == 0) by (nonlinear_arith)
            requires
                lanes == 0,
        ;
    }
}

/// Reading all the lanes of an image leaves the stream exactly behind the
/// pixel data.
///
/// Where the pixel data `body` is a complete encoding of `lanes` lanes of
/// `lane_length` bytes, every one of the `lanes` reads succeeds, and after the
/// last the decoder holds nothing back and the stream stands at the first byte
/// of `tail`: in a file with 256 colors, at the palette marker.
pub proof fn lemma_lanes_consume_pixel_data(
    body: Seq<u8>,
    data: Seq<u8>,
    tail: Seq<u8>,
    lane_length: nat,
    lanes: nat,
)
    requires
        encodes(body, data),
        data.len() == lanes * lane_length,
    ensures
        after_lanes(Decoding::start(body + tail), lane_length, lanes) == Some(
            Decoding::start(tail),
        ),
{
    lemma_decoding_consumes_encoding(body, data, tail);
    lemma_after_lanes(Decoding::start(body + tail), lane_length, lanes);
}

/// A paletted image of one plane, read row by row, ends at its palette.
///
/// Take a file whose pixel data `body` is a complete encoding of one lane for
/// each of the image's rows, and which ends with the palette marker and a
/// `table` of 768 bytes. Then every row can be read, exactly as many lanes are
/// consumed as the image has rows, the stream then stands at the marker, and
/// the palette that is read from there is `table`.
pub proof fn lemma_rows_end_at_palette(
    header: Header,
    body: Seq<u8>,
    data: Seq<u8>,
    table: Seq<u8>,
)
    requires
        header.valid(),
        encodes(body, data),
        data.len() == header.size.1 * header.lane_length,
        table.len() == PALETTE_LENGTH,
    ensures
        ({
            let tail = seq![PALETTE_MARKER] + table;
            &&& after_lanes(
                Decoding::start(body + tail),
                header.lane_length as nat,
                header.size.1 as nat,
            ) == Some(Decoding::start(tail))
            &&& has_trailing_palette(tail)
            &&& trailing_palette(tail) == table
        }),
{
    let tail = seq![PALETTE_MARKER] + table;
    lemma_lanes_consume_pixel_data(
        body,
        data,
        tail,
        header.lane_length as nat,
        header.size.1 as nat,
    );
    lemma_trailing_palette_found(Seq::empty(), table);
    assert(Seq::<u8>::empty() + seq![PALETTE_MARKER] + table =~= tail);
}

/// How many of the next two lanes the encoded bytes still give in full.
pub open spec fn complete_lanes(d: Decoding, lane_length: nat) -> nat {
    if d.take(lane_length).is_none() {
        0
    } else if d.take(2 * lane_length).is_none() {
        1
    } else {
        2
    }
}

/// PCX file reader.
///
/// Rows come from top to bottom. An image is either paletted, and its rows are
/// read with `next_row_paletted`, or RGB, and its rows are read with
/// `next_row_rgb`. The palette is read last: `read_palette` uses the reader up.
pub struct Reader {
    header: Header,
    decompressor: Decompressor,
    num_lanes_read: u32,
}

impl Reader {
    /// The invariant of a reader: its header is valid. `new` establishes it,
    /// and every operation keeps it, since none changes the header.
    pub open spec fn wf(self) -> bool {
        self.spec_header().valid()
    }

    /// The header of the file.
    pub closed spec fn spec_header(self) -> Header {
        self.header
    }

    /// Where the decoder of the pixel data stands.
    pub closed spec fn decoding(self) -> Decoding {
        self.decompressor@
    }

    /// Number of lanes read so far.
    pub closed spec fn lanes_read(self) -> nat {
        self.num_lanes_read as nat
    }

    /// Starts reading a PCX file: reads its header, and stands at the first
    /// lane.
    ///
    /// Fails as `Header::load` does.
    pub fn new(stream: ByteStream) -> (r: Result<Reader, Error>)
        ensures
            match r {
                Ok(reader) => {
                    &&& header_bytes_ok(stream.remaining())
                    &&& reader.spec_header().describes(stream.remaining())
                    &&& reader.wf()
                    &&& reader.lanes_read() == 0
                    &&& reader.decoding() == Decoding::start(
                        stream.remaining().skip(HEADER_LENGTH as int),
                    )
                },
                Err(e) => !header_bytes_ok(stream.remaining()) && e == if stream.remaining().len()
                    < HEADER_LENGTH {
                    Error::UnexpectedEof
                } else {
                    Error::InvalidData
                },
            },
    {
        let mut stream = stream;
        match Header::load(&mut stream) {
            Ok(header) => Ok(
                Reader { header, decompressor: Decompressor::new(stream), num_lanes_read: 0 },
            ),
            Err(e) => Err(e),
        }
    }

    /// The file header. All useful values are also available through the
    /// reader's own methods.
    pub fn header(&self) -> (h: &Header)
        ensures
            *h == self.spec_header(),
    {
        &self.header
    }

    /// Width and height of the image.
    pub fn size(&self) -> (r: (u16, u16))
        ensures
            r == self.spec_header().size,
    {
        self.header.size
    }

    /// Whether this image is paletted (or else 24-bit RGB).
    pub fn is_paletted(&self) -> (r: bool)
        requires
            self.wf(),
        ensures
            r == self.spec_header().spec_palette_length().is_some(),
    {
        self.header.palette_length().is_some()
    }

    /// Number of colors in the palette if this image is paletted: 2, 4, 8, 16
    /// or 256.
    pub fn palette_length(&self) -> (r: Option<u16>)
        requires
            self.wf(),
        ensures
            r == self.spec_header().spec_palette_length(),
            r matches Some(n) ==> n == 2 || n == 4 || n == 8 || n == 16 || n == 256,
    {
        self.header.palette_length()
    }

    /// Number of lanes read so far.
    pub fn num_lanes_read(&self) -> (r: u32)
        ensures
            r == self.lanes_read(),
    {
        self.num_lanes_read
    }

    /// Reads the next lane: the bytes of one plane of one row, as the file
    /// stores them.
    ///
    /// This is a low-level function; `next_row_paletted` and `next_row_rgb`
    /// are built on it. `buffer` must have exactly `lane_proper_length` bytes.
    /// The lane's filler bytes are read and dropped, so that the decoder then
    /// stands at the next lane.
    ///
    /// Fails with `UnexpectedEof` where the pixel data ends within the lane;
    /// the reader should not be used after that.
    pub fn next_lane(&mut self, buffer: &mut [u8]) -> (r: Result<(), Error>)
        requires
            old(self).wf(),
            old(buffer)@.len() == old(self).spec_header().spec_lane_proper_length(),
            old(self).lanes_read() < u32::MAX,
        ensures
            final(self).spec_header() == old(self).spec_header(),
            final(buffer)@.len() == old(buffer)@.len(),
            match old(self).decoding().take(old(self).spec_header().lane_length as nat) {
                Some((bytes, after)) => {
                    &&& r.is_ok()
                    &&& final(buffer)@ == bytes.take(old(buffer)@.len() as int)
                    &&& final(self).decoding() == after
                    &&& final(self).lanes_read() == old(self).lanes_read() + 1
                },
                None => {
                    &&& r == Err::<(), Error>(Error::UnexpectedEof)
                    &&& final(self).lanes_read() == old(self).lanes_read()
                },
            },
    {
        let padding: u16 = self.header.lane_padding();
        let ghost start = self.decompressor@;
        let ghost proper = buffer@.len() as nat;
        proof {
            lemma_take_add(start, proper, padding as nat);
            lemma_take_len(start, proper);
        }
        match self.decompressor.read_exact(buffer) {
            Ok(()) => {},
            Err(e) => {
                return Err(e);
            },
        }
        let ghost mut skipped: Seq<u8> = Seq::empty();
        let mut i: u16 = 0;
        assert(buffer@ + skipped =~= buffer@);
        while i < padding
            invariant
                i <= padding,
                proper == buffer@.len(),
                proper == old(buffer)@.len(),
                proper + padding == old(self).spec_header().lane_length,
                start == old(self).decoding(),
                skipped.len() == i,
                self.header == old(self).spec_header(),
                self.num_lanes_read == old(self).num_lanes_read,
                start.take(proper + i as nat) == Some((buffer@ + skipped, self.decompressor@)),
            decreases padding - i,
        {
            proof {
                lemma_take_add(start, proper + i as nat, 1);
                lemma_take_add(start, proper + i as nat + 1, (padding - i - 1) as nat);
                reveal_with_fuel(Decoding::take, 2);
            }
            match self.decompressor.read_u8() {
                Ok(byte) => {
                    proof {
                        assert((buffer@ + skipped) + (seq![byte] + Seq::<u8>::empty()) =~= buffer@
                            + (skipped + seq![byte]));
                        skipped = skipped + seq![byte];
                    }
                },
                Err(e) => {
                    return Err(e);
                },
            }
            i = i + 1;
        }
        assert((buffer@ + skipped).take(proper as int) =~= buffer@);
        self.num_lanes_read = self.num_lanes_read + 1;
        Ok(())
    }

    /// Reads the next row of a paletted image: one palette index per pixel.
    ///
    /// `buffer` must have as many bytes as the image is wide. At fewer than 8
    /// bits per pixel the packed lane is read into the end of `buffer` and
    /// unpacked in place. Rows of an image with several planes are not
    /// decoded: the call succeeds and changes nothing.
    ///
    /// Fails with `InvalidInput`, and changes nothing, where the image is not
    /// paletted; with `UnexpectedEof` where the pixel data ends within the row.
    pub fn next_row_paletted(&mut self, buffer: &mut [u8]) -> (r: Result<(), Error>)
        requires
            old(self).wf(),
            old(self).spec_header().spec_palette_length().is_some() && old(
                self,
            ).spec_header().number_of_color_planes == 1 ==> old(buffer)@.len() == old(
                self,
            ).spec_header().size.0 && old(self).lanes_read() < u32::MAX,
        ensures
            final(self).spec_header() == old(self).spec_header(),
            final(buffer)@.len() == old(buffer)@.len(),
            old(self).spec_header().spec_palette_length().is_none() ==> {
                &&& r == Err::<(), Error>(Error::InvalidInput)
                &&& final(buffer)@ == old(buffer)@
                &&& final(self).decoding() == old(self).decoding()
                &&& final(self).lanes_read() == old(self).lanes_read()
            },
            old(self).spec_header().spec_palette_length().is_some() && old(
                self,
            ).spec_header().number_of_color_planes != 1 ==> {
                &&& r.is_ok()
                &&& final(buffer)@ == old(buffer)@
                &&& final(self).decoding() == old(self).decoding()
                &&& final(self).lanes_read() == old(self).lanes_read()
            },
            old(self).spec_header().spec_palette_length().is_some() && old(
                self,
            ).spec_header().number_of_color_planes == 1 ==> match old(self).decoding().take(
                old(self).spec_header().lane_length as nat,
            ) {
                Some((bytes, after)) => {
                    &&& r.is_ok()
                    &&& final(buffer)@ == paletted_row(
                        old(self).spec_header(),
                        bytes.take(old(self).spec_header().spec_lane_proper_length()),
                    )
                    &&& forall|p: int|
                        0 <= p < final(buffer)@.len() ==> (#[trigger] final(buffer)@[p]) < old(
                            self,
                        ).spec_header().spec_palette_length().unwrap()
                    &&& final(self).decoding() == after
                    &&& final(self).lanes_read() == old(self).lanes_read() + 1
                },
                None => {
                    &&& r == Err::<(), Error>(Error::UnexpectedEof)
                    &&& final(self).lanes_read() == old(self).lanes_read()
                },
            },
    {
        proof {
            lemma2_to64();
        }
        let colors: u16 = match self.header.palette_length() {
            Some(n) => n,
            None => {
                return Err(Error::InvalidInput);
            },
        };
        if colors == 256 {
            self.next_lane(buffer)
        } else if self.header.number_of_color_planes == 1 {
            let depth: u8 = self.header.bit_depth;
            let lane_length: usize = self.header.lane_proper_length() as usize;
            let offset: usize = buffer.len() - lane_length;
            let (_, tail) = buffer.split_at_mut(offset);
            match self.next_lane(tail) {
                Ok(()) => {},
                Err(e) => {
                    return Err(e);
                },
            }
            unpack_in_place(buffer, depth);
            Ok(())
        } else {
            Ok(())
        }
    }

    /// Reads the next row of an RGB image: its red, green and blue values,
    /// one byte per pixel each.
    ///
    /// `r`, `g` and `b` must have as many bytes as the image is wide. A row is
    /// three lanes, so the number of lanes read so far must be a multiple of 3.
    ///
    /// Fails with `InvalidInput`, and changes nothing, where the image is
    /// paletted or the number of lanes read is not a multiple of 3; with
    /// `UnexpectedEof` where the pixel data ends within the row.
    pub fn next_row_rgb(&mut self, r: &mut [u8], g: &mut [u8], b: &mut [u8]) -> (res: Result<
        (),
        Error,
    >)
        requires
            old(self).wf(),
            old(self).spec_header().spec_palette_length().is_none() && old(self).lanes_read() % 3
                == 0 ==> {
                &&& old(r)@.len() == old(self).spec_header().size.0
                &&& old(g)@.len() == old(self).spec_header().size.0
                &&& old(b)@.len() == old(self).spec_header().size.0
                &&& old(self).lanes_read() + 3 <= u32::MAX
            },
        ensures
            final(self).spec_header() == old(self).spec_header(),
            final(r)@.len() == old(r)@.len(),
            final(g)@.len() == old(g)@.len(),
            final(b)@.len() == old(b)@.len(),
            old(self).spec_header().spec_palette_length().is_some() || old(self).lanes_read() % 3
                != 0 ==> {
                &&& res == Err::<(), Error>(Error::InvalidInput)
                &&& final(r)@ == old(r)@
                &&& final(g)@ == old(g)@
                &&& final(b)@ == old(b)@
                &&& final(self).decoding() == old(self).decoding()
                &&& final(self).lanes_read() == old(self).lanes_read()
            },
            old(self).spec_header().spec_palette_length().is_none() && old(self).lanes_read() % 3
                == 0 ==> match old(self).decoding().take(
                (3 * old(self).spec_header().lane_length) as nat,
            ) {
                Some((bytes, after)) => {
                    let width = old(self).spec_header().size.0 as int;
                    let lane = old(self).spec_header().lane_length as int;
                    &&& res.is_ok()
                    &&& final(r)@ == bytes.subrange(0, width)
                    &&& final(g)@ == bytes.subrange(lane, lane + width)
                    &&& final(b)@ == bytes.subrange(2 * lane, 2 * lane + width)
                    &&& final(self).decoding() == after
                    &&& final(self).lanes_read() == old(self).lanes_read() + 3
                },
                None => {
                    &&& res == Err::<(), Error>(Error::UnexpectedEof)
                    &&& final(self).lanes_read() == old(self).lanes_read() + complete_lanes(
                        old(self).decoding(),
                        old(self).spec_header().lane_length as nat,
                    )
                },
            },
    {
        if self.is_paletted() {
            return Err(Error::InvalidInput);
        }
        if self.num_lanes_read % 3 != 0 {
            return Err(Error::InvalidInput);
        }
        let ghost start = self.decompressor@;
        let ghost lane = self.header.lane_length as nat;
        proof {
            lemma_take_add(start, lane, lane);
            lemma_take_add(start, 2 * lane, lane);
            lemma_take_len(start, lane);
            lemma_take_len(start, 2 * lane);
            lemma_take_len(start, 3 * lane);
        }
        match self.next_lane(r) {
            Ok(()) => {},
            Err(e) => {
                return Err(e);
            },
        }
        match self.next_lane(g) {
            Ok(()) => {},
            Err(e) => {
                return Err(e);
            },
        }
        match self.next_lane(b) {
            Ok(()) => {},
            Err(e) => {
                return Err(e);
            },
        }
        proof {
            let (bytes, after) = start.take(3 * lane).unwrap();
            let width = self.header.size.0 as int;
            assert(r@ =~= bytes.subrange(0, width));
            assert(g@ =~= bytes.subrange(lane as int, lane + width));
            assert(b@ =~= bytes.subrange(2 * lane as int, 2 * lane + width));
        }
        Ok(())
    }

    /// Reads the color palette: red, green and blue of each color, three bytes
    /// per color, to the front of `buffer`. Returns the number of colors, or
    /// zero (and leaves `buffer` alone) if the image has no palette.
    ///
    /// `buffer` must have room for the palette: three bytes for each of
    /// `palette_length` colors.
    ///
    /// A palette of up to 16 colors comes from the header. One of 256 colors
    /// is stored at the end of the file: decoding stops, and the stream is read
    /// to its end. Fails with `InvalidData`, and leaves `buffer` alone, where
    /// the stream does not end with the palette marker and 768 bytes.
    pub fn read_palette(self, buffer: &mut [u8]) -> (r: Result<usize, Error>)
        requires
            self.wf(),
            self.spec_header().spec_palette_length() matches Some(n) ==> old(buffer)@.len() >= 3
                * n,
        ensures
            final(buffer)@.len() == old(buffer)@.len(),
            match self.spec_header().spec_palette_length() {
                None => r == Ok::<usize, Error>(0) && final(buffer)@ == old(buffer)@,
                Some(n) => if n <= 16 {
                    &&& r == Ok::<usize, Error>(n as usize)
                    &&& final(buffer)@ == self.spec_header().palette_bytes().take(3 * n) + old(
                        buffer,
                    )@.skip(3 * n)
                } else if has_trailing_palette(self.decoding().raw) {
                    &&& r == Ok::<usize, Error>(256)
                    &&& final(buffer)@ == trailing_palette(self.decoding().raw) + old(
                        buffer,
                    )@.skip(768)
                } else {
                    &&& r == Err::<usize, Error>(Error::InvalidData)
                    &&& final(buffer)@ == old(buffer)@
                },
            },
    {
        match self.header.palette_length() {
            None => Ok(0),
            Some(n) => {
                if n <= 16 {
                    copy_embedded_palette(&self.header, n as usize, buffer);
                    Ok(n as usize)
                } else {
                    read_trailing_palette(self.decompressor.finish(), buffer)
                }
            },
        }
    }
}

} // verus!
