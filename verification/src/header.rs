//! The fixed 128-byte header that opens every PCX file, and the quantities
//! that follow from it.

use crate::error::Error;
use crate::stream::ByteStream;
use byteorder::{ByteOrder, LittleEndian};
use vstd::arithmetic::power2::{lemma2_to64, pow2};
use vstd::prelude::*;
use vstd::slice::slice_subrange;

verus! {

/// Number of bytes of the header.
pub const HEADER_LENGTH: usize = 128;

/// First byte of every PCX file.
pub const MAGIC_BYTE: u8 = 0x0A;

/// Number of colors that the header has room for.
pub const EMBEDDED_COLORS: usize = 16;

/// Version of the program that wrote the file.
#[derive(Clone, Copy, Debug, PartialEq, Eq, Structural)]
pub enum Version {
    V0,
    V2,
    V3,
    V4,
    V5,
}

/// The version that a tag byte of the header stands for.
pub open spec fn version_of(tag: u8) -> Option<Version> {
    if tag == 0 {
        Some(Version::V0)
    } else if tag == 2 {
        Some(Version::V2)
    } else if tag == 3 {
        Some(Version::V3)
    } else if tag == 4 {
        Some(Version::V4)
    } else if tag == 5 {
        Some(Version::V5)
    } else {
        None
    }
}

/// The pixel layouts that the format knows: one plane of 1, 2, 4 or 8 bits,
/// three or four planes of 1 bit, or three planes of 8 bits (RGB).
pub open spec fn supported_format(planes: u8, depth: u8) -> bool {
    ||| planes == 1 && (depth == 1 || depth == 2 || depth == 4 || depth == 8)
    ||| (planes == 3 || planes == 4) && depth == 1
    ||| planes == 3 && depth == 8
}

/// Bytes that one plane of one row needs: `width * depth` bits, rounded up to whole bytes.
pub open spec fn lane_bytes(width: u16, depth: u8) -> int {
    (width * depth + 7) / 8
}

/// The little-endian number that two bytes of `b` form, low byte at `at`.
pub open spec fn field_u16(b: Seq<u8>, at: int) -> int {
    b[at] + 256 * b[at + 1]
}

/// What makes the first 128 bytes of `b` a header that this library accepts.
pub open spec fn header_bytes_ok(b: Seq<u8>) -> bool {
    &&& b.len() >= HEADER_LENGTH
    &&& b[0] == MAGIC_BYTE
    &&& version_of(b[1]).is_some()
    &&& b[2] <= 1
    &&& supported_format(b[65], b[3])
    &&& field_u16(b, 4) <= field_u16(b, 8) < field_u16(b, 4) + 0xFFFF
    &&& field_u16(b, 6) <= field_u16(b, 10) < field_u16(b, 6) + 0xFFFF
    &&& {
        let lane = lane_bytes((field_u16(b, 8) - field_u16(b, 4) + 1) as u16, b[3]);
        field_u16(b, 66) == lane + lane % 2
    }
}

/// What the file says about the image.
#[derive(Clone, Copy, Debug)]
pub struct Header {
    pub version: Version,
    /// Whether the pixel data is run-length encoded.
    pub is_compressed: bool,
    /// Bits per pixel in one plane: 1, 2, 4 or 8.
    pub bit_depth: u8,
    /// Width and height in pixels.
    pub size: (u16, u16),
    /// Position of the upper left corner.
    pub start: (u16, u16),
    /// Horizontal and vertical resolution.
    pub dpi: (u16, u16),
    /// The colors stored in the header, red, green and blue of each.
    pub palette: [[u8; 3]; 16],
    /// 1, 3 or 4.
    pub number_of_color_planes: u8,
    /// Bytes that one plane of one row takes in the decoded stream; always even.
    pub lane_length: u16,
}

/// Calls `byteorder::LittleEndian::read_u16`, which reads the first two bytes of
/// `buf` as a little-endian number and panics on a shorter slice: the result is
/// the first byte plus 256 times the second.
#[verifier::external_body]
fn read_u16_le(buf: &[u8]) -> (r: u16)
    requires
        buf@.len() >= 2,
    ensures
        r == field_u16(buf@, 0),
{
    LittleEndian::read_u16(buf)
}

/// The two-byte field of the header that starts at `at`.
fn field(bytes: &[u8], at: usize) -> (r: u16)
    requires
        at + 2 <= HEADER_LENGTH <= bytes@.len(),
    ensures
        r == field_u16(bytes@, at as int),
{
    read_u16_le(slice_subrange(bytes, at, at + 2))
}

/// The version that a tag byte stands for, if any.
fn version_from_tag(tag: u8) -> (r: Option<Version>)
    ensures
        r == version_of(tag),
{
    if tag == 0 {
        Some(Version::V0)
    } else if tag == 2 {
        Some(Version::V2)
    } else if tag == 3 {
        Some(Version::V3)
    } else if tag == 4 {
        Some(Version::V4)
    } else if tag == 5 {
        Some(Version::V5)
    } else {
        None
    }
}

/// Whether the format knows images of `planes` planes with `depth` bits each.
fn is_supported_format(planes: u8, depth: u8) -> (r: bool)
    ensures
        r == supported_format(planes, depth),
{
    (planes == 1 && (depth == 1 || depth == 2 || depth == 4 || depth == 8)) || ((planes == 3
        || planes == 4) && depth == 1) || (planes == 3 && depth == 8)
}

/// The 16 colors that the header stores from byte 16 on.
fn embedded_palette(bytes: &[u8]) -> (palette: [[u8; 3]; 16])
    requires
        bytes@.len() >= HEADER_LENGTH,
    ensures
        Seq::new(48, |k: int| palette[k / 3][k % 3]) == bytes@.subrange(16, 64),
{
    let mut palette: [[u8; 3]; 16] = [[0u8; 3]; 16];
    let mut i: usize = 0;
    while i < EMBEDDED_COLORS
        invariant
            i <= EMBEDDED_COLORS,
            bytes@.len() >= HEADER_LENGTH,
            forall|c: int, k: int|
                0 <= c < i && 0 <= k < 3 ==> #[trigger] palette[c][k] == bytes@[16 + 3 * c + k],
        decreases EMBEDDED_COLORS - i,
    {
        let at: usize = 16 + 3 * i;
        palette[i] = [bytes[at], bytes[at + 1], bytes[at + 2]];
        i = i + 1;
    }
    assert(Seq::new(48, |k: int| palette[k / 3][k % 3]) =~= bytes@.subrange(16, 64));
    palette
}

/// The palette of a valid header has 2, 4, 8, 16 or 256 colors.
pub proof fn lemma_palette_length_values(h: Header)
    requires
        h.valid(),
    ensures
        h.spec_palette_length() matches Some(n) ==> n == 2 || n == 4 || n == 8 || n == 16 || n
            == 256,
        h.spec_palette_length().is_none() <==> h.number_of_color_planes == 3 && h.bit_depth == 8,
{
    lemma2_to64();
}

/// Only the first 128 bytes decide whether a sequence starts with a header, and with which.
proof fn lemma_header_prefix(a: Seq<u8>, b: Seq<u8>)
    requires
        a.len() >= HEADER_LENGTH,
        b.len() >= HEADER_LENGTH,
        a.take(HEADER_LENGTH as int) == b.take(HEADER_LENGTH as int),
    ensures
        header_bytes_ok(a) == header_bytes_ok(b),
        forall|h: Header| h.describes(a) == h.describes(b),
{
    assert forall|i: int| 0 <= i < HEADER_LENGTH implies a[i] == b[i] by {
        assert(a[i] == a.take(HEADER_LENGTH as int)[i]);
        assert(b[i] == b.take(HEADER_LENGTH as int)[i]);
    }
    assert(a.subrange(16, 64) =~= b.subrange(16, 64));
}

impl Header {
    /// The invariant of a header: a supported layout, a non-empty image, and
    /// lanes that are stored with an even number of bytes.
    pub open spec fn valid(&self) -> bool {
        &&& supported_format(self.number_of_color_planes, self.bit_depth)
        &&& self.size.0 >= 1
        &&& self.size.1 >= 1
        &&& self.lane_length == lane_bytes(self.size.0, self.bit_depth) + lane_bytes(
            self.size.0,
            self.bit_depth,
        ) % 2
    }

    /// Number of palette entries of the image: two to the number of bits that
    /// all planes together give a pixel; none for RGB.
    pub open spec fn spec_palette_length(&self) -> Option<u16> {
        if self.number_of_color_planes == 3 && self.bit_depth == 8 {
            None
        } else {
            Some(pow2((self.bit_depth * self.number_of_color_planes) as nat) as u16)
        }
    }

    /// Bytes of a lane that carry pixels.
    pub open spec fn spec_lane_proper_length(&self) -> int {
        lane_bytes(self.size.0, self.bit_depth)
    }

    /// Bytes of a lane that carry nothing.
    pub open spec fn spec_lane_padding(&self) -> int {
        self.lane_length - self.spec_lane_proper_length()
    }

    /// The embedded palette as one sequence of 48 bytes: red, green, blue of
    /// color 0, then of color 1, and so on.
    pub open spec fn palette_bytes(&self) -> Seq<u8> {
        Seq::new(48, |k: int| self.palette[k / 3][k % 3])
    }

    /// Whether `b` starts with this header: every field has the value that the
    /// bytes at its place give.
    pub open spec fn describes(&self, b: Seq<u8>) -> bool {
        &&& b.len() >= HEADER_LENGTH
        &&& version_of(b[1]) == Some(self.version)
        &&& self.is_compressed == (b[2] == 1)
        &&& self.bit_depth == b[3]
        &&& self.start.0 == field_u16(b, 4)
        &&& self.start.1 == field_u16(b, 6)
        &&& self.size.0 == field_u16(b, 8) - field_u16(b, 4) + 1
        &&& self.size.1 == field_u16(b, 10) - field_u16(b, 6) + 1
        &&& self.dpi.0 == field_u16(b, 12)
        &&& self.dpi.1 == field_u16(b, 14)
        &&& self.palette_bytes() == b.subrange(16, 64)
        &&& self.number_of_color_planes == b[65]
        &&& self.lane_length == field_u16(b, 66)
    }

    /// Reads a header from the first 128 bytes of `bytes`.
    ///
    /// Fails with `UnexpectedEof` on fewer than 128 bytes, and with `InvalidData`
    /// where the bytes do not start with the magic byte, name an unknown version or
    /// encoding or an unsupported layout, give an end coordinate before the start
    /// or more than 65535 pixels in one direction, or a lane length other than the
    /// row's bytes rounded up to an even number.
    pub fn parse(bytes: &[u8]) -> (r: Result<Header, Error>)
        ensures
            match r {
                Ok(h) => header_bytes_ok(bytes@) && h.describes(bytes@) && h.valid(),
                Err(e) => !header_bytes_ok(bytes@) && e == if bytes@.len() < HEADER_LENGTH {
                    Error::UnexpectedEof
                } else {
                    Error::InvalidData
                },
            },
    {
        if bytes.len() < HEADER_LENGTH {
            return Err(Error::UnexpectedEof);
        }
        if bytes[0] != MAGIC_BYTE || bytes[2] > 1 {
            return Err(Error::InvalidData);
        }
        let version: Version = match version_from_tag(bytes[1]) {
            Some(v) => v,
            None => {
                return Err(Error::InvalidData);
            },
        };
        let bit_depth: u8 = bytes[3];
        let number_of_color_planes: u8 = bytes[65];
        if !is_supported_format(number_of_color_planes, bit_depth) {
            return Err(Error::InvalidData);
        }
        let x_start: u16 = field(bytes, 4);
        let y_start: u16 = field(bytes, 6);
        let x_end: u16 = field(bytes, 8);
        let y_end: u16 = field(bytes, 10);
        if x_end < x_start || y_end < y_start || x_end - x_start == 0xFFFF || y_end - y_start
            == 0xFFFF {
            return Err(Error::InvalidData);
        }
        let width: u16 = x_end - x_start + 1;
        let height: u16 = y_end - y_start + 1;
        let lane_length: u16 = field(bytes, 66);
        assert((width as u32) * (bit_depth as u32) <= 0xFFFF * 8) by (nonlinear_arith)
            requires
                width <= 0xFFFF,
                bit_depth <= 8,
        ;
        let lane: u32 = ((width as u32) * (bit_depth as u32) + 7) / 8;
        if lane_length as u32 != lane + lane % 2 {
            return Err(Error::InvalidData);
        }
        Ok(
            Header {
                version,
                is_compressed: bytes[2] == 1,
                bit_depth,
                size: (width, height),
                start: (x_start, y_start),
                dpi: (field(bytes, 12), field(bytes, 14)),
                palette: embedded_palette(bytes),
                number_of_color_planes,
                lane_length,
            },
        )
    }

    /// Reads the header that the stream starts with, and leaves the stream at
    /// the first byte after it.
    ///
    /// Fails as `parse` does on the next 128 bytes of the stream; a stream that
    /// holds fewer is read to its end.
    pub fn load(stream: &mut ByteStream) -> (r: Result<Header, Error>)
        ensures
            final(stream).remaining() == old(stream).remaining().skip(
                if old(stream).remaining().len() < HEADER_LENGTH {
                    old(stream).remaining().len() as int
                } else {
                    HEADER_LENGTH as int
                },
            ),
            match r {
                Ok(h) => header_bytes_ok(old(stream).remaining()) && h.describes(
                    old(stream).remaining(),
                ) && h.valid(),
                Err(e) => !header_bytes_ok(old(stream).remaining()) && e == if old(
                    stream,
                ).remaining().len() < HEADER_LENGTH {
                    Error::UnexpectedEof
                } else {
                    Error::InvalidData
                },
            },
    {
        let mut bytes: [u8; 128] = [0u8; 128];
        match stream.read_exact(&mut bytes) {
            Ok(()) => {},
            Err(e) => {
                return Err(e);
            },
        }
        let r = Header::parse(bytes.as_slice());
        proof {
            assert(bytes@.take(HEADER_LENGTH as int) =~= old(stream).remaining().take(
                HEADER_LENGTH as int,
            ));
            lemma_header_prefix(bytes@, old(stream).remaining());
        }
        r
    }

    /// Number of colors in the palette, 2, 4, 8, 16 or 256, or `None` for an RGB image.
    pub fn palette_length(&self) -> (r: Option<u16>)
        requires
            self.valid(),
        ensures
            r == self.spec_palette_length(),
            r.is_none() <==> self.number_of_color_planes == 3 && self.bit_depth == 8,
            r matches Some(n) ==> n == 2 || n == 4 || n == 8 || n == 16 || n == 256,
    {
        proof {
            lemma2_to64();
            lemma_palette_length_values(*self);
        }
        if self.number_of_color_planes == 3 && self.bit_depth == 8 {
            None
        } else {
            let bits: u8 = self.bit_depth * self.number_of_color_planes;
            assert(bits == 1 || bits == 2 || bits == 3 || bits == 4 || bits == 8);
            let n: u16 = 1u16 << bits;
            assert(n == pow2(bits as nat)) by {
                assert(1u16 << 1u8 == 2) by (bit_vector);
                assert(1u16 << 2u8 == 4) by (bit_vector);
                assert(1u16 << 3u8 == 8) by (bit_vector);
                assert(1u16 << 4u8 == 16) by (bit_vector);
                assert(1u16 << 8u8 == 256) by (bit_vector);
            }
            Some(n)
        }
    }

    /// Number of bytes of a lane that carry pixels: `width * bit_depth / 8`, rounded up.
    pub fn lane_proper_length(&self) -> (r: u16)
        requires
            self.valid(),
        ensures
            r == self.spec_lane_proper_length(),
            1 <= r <= self.lane_length,
    {
        let bits: u32 = (self.size.0 as u32) * (self.bit_depth as u32);
        ((bits + 7) / 8) as u16
    }

    /// Number of filler bytes that follow the pixels of each lane: 0 or 1.
    pub fn lane_padding(&self) -> (r: u16)
        requires
            self.valid(),
        ensures
            r == self.spec_lane_padding(),
            r == self.spec_lane_proper_length() % 2,
    {
        self.lane_length - self.lane_proper_length()
    }
}

} // verus!
