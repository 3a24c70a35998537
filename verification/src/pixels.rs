//! Packed pixels: rows that store 8, 4 or 2 palette indices in each byte.

use vstd::arithmetic::power2::{lemma2_to64, pow2};
use vstd::prelude::*;

verus! {

/// The bit depths at which several pixels share a byte.
pub open spec fn is_packed_depth(depth: u8) -> bool {
    depth == 1 || depth == 2 || depth == 4
}

/// Number of pixels in one byte: 8, 4 or 2 at depth 1, 2 or 4, and 1 otherwise.
pub open spec fn pixels_per_byte(depth: u8) -> int {
    if depth == 1 {
        8
    } else if depth == 2 {
        4
    } else if depth == 4 {
        2
    } else {
        1
    }
}

/// Number of bytes that hold `width` pixels: `width * depth` bits, rounded up
/// to whole bytes.
pub open spec fn packed_length(width: int, depth: u8) -> int {
    (width * depth + 7) / 8
}

/// The mask that keeps the lowest `depth` bits.
pub open spec fn pixel_mask(depth: u8) -> u8 {
    0xFFu8 >> ((8 - depth) as u8)
}

/// How far pixel `j` of a byte lies above bit 0: the first pixel holds the
/// highest bits.
pub open spec fn pixel_shift(depth: u8, j: int) -> u8 {
    (8 - depth * (j + 1)) as u8
}

/// Pixel `j` of a packed byte: its bits `8 - depth * (j + 1)` up to, and not
/// including, `8 - depth * j`.
pub open spec fn unpack_pixel(byte: u8, depth: u8, j: int) -> u8 {
    (byte >> pixel_shift(depth, j)) & pixel_mask(depth)
}

/// The row of `width` pixels that the packed bytes of `lane` hold.
pub open spec fn unpack_row(lane: Seq<u8>, depth: u8, width: int) -> Seq<u8> {
    Seq::new(
        width as nat,
        |p: int| unpack_pixel(lane[p / pixels_per_byte(depth)], depth, p % pixels_per_byte(depth)),
    )
}

/// `packed_length` without a product: the pixels divided by the pixels per
/// byte, rounded up.
pub proof fn lemma_packed_length(width: int, depth: u8)
    requires
        is_packed_depth(depth),
        0 <= width,
    ensures
        depth == 1 ==> packed_length(width, depth) == (width + 7) / 8,
        depth == 2 ==> packed_length(width, depth) == (width + 3) / 4,
        depth == 4 ==> packed_length(width, depth) == (width + 1) / 2,
        packed_length(width, depth) <= width,
        width > 0 ==> packed_length(width, depth) > 0,
{
    assert(depth == 1 ==> width * depth == width) by (nonlinear_arith);
    assert(depth == 2 ==> width * depth == 2 * width) by (nonlinear_arith);
    assert(depth == 4 ==> width * depth == 4 * width) by (nonlinear_arith);
}

/// The shift of each pixel, without a product.
proof fn lemma_pixel_shift(depth: u8, j: int)
    requires
        is_packed_depth(depth),
        0 <= j < pixels_per_byte(depth),
    ensures
        depth == 1 ==> pixel_shift(depth, j) == 7 - j,
        depth == 2 ==> pixel_shift(depth, j) == 6 - 2 * j,
        depth == 4 ==> pixel_shift(depth, j) == 4 - 4 * j,
{
    assert(depth == 1 ==> depth * (j + 1) == j + 1) by (nonlinear_arith);
    assert(depth == 2 ==> depth * (j + 1) == 2 * j + 2) by (nonlinear_arith);
    assert(depth == 4 ==> depth * (j + 1) == 4 * j + 4) by (nonlinear_arith);
}

/// The byte that packs `pixels[j]`, `pixels[j + 1]`, ... up to the last pixel
/// of a byte, each cut to `depth` bits and put at its place; the places of the
/// pixels before `j` hold zeros.
pub open spec fn pack_from(pixels: Seq<u8>, depth: u8, j: int) -> u8
    decreases pixels_per_byte(depth) - j,
{
    if j >= pixels_per_byte(depth) {
        0
    } else {
        ((pixels[j] & pixel_mask(depth)) << pixel_shift(depth, j)) | pack_from(pixels, depth, j + 1)
    }
}

/// The byte that packs the first `pixels_per_byte(depth)` pixels of `pixels`,
/// the first of them in the highest bits.
pub open spec fn pack_byte(pixels: Seq<u8>, depth: u8) -> u8 {
    pack_from(pixels, depth, 0)
}

/// The pixels of one packed byte, in order.
pub open spec fn unpack_byte(byte: u8, depth: u8) -> Seq<u8> {
    Seq::new(pixels_per_byte(depth) as nat, |j: int| unpack_pixel(byte, depth, j))
}

/// The mask of each depth, as a number.
proof fn lemma_layout(depth: u8)
    requires
        is_packed_depth(depth),
    ensures
        depth == 1 ==> pixel_mask(depth) == 1,
        depth == 2 ==> pixel_mask(depth) == 3,
        depth == 4 ==> pixel_mask(depth) == 15,
        pixel_mask(depth) == pow2(depth as nat) - 1,
{
    lemma2_to64();
    assert(0xFFu8 >> 7u8 == 1) by (bit_vector);
    assert(0xFFu8 >> 6u8 == 3) by (bit_vector);
    assert(0xFFu8 >> 4u8 == 15) by (bit_vector);
}

/// Every unpacked pixel is a number of `depth` bits: it lies below `2^depth`.
pub proof fn lemma_unpacked_pixel_in_range(byte: u8, depth: u8, j: int)
    requires
        is_packed_depth(depth),
        0 <= j < pixels_per_byte(depth),
    ensures
        unpack_pixel(byte, depth, j) < pow2(depth as nat),
{
    lemma_layout(depth);
    let x: u8 = byte >> pixel_shift(depth, j);
    let m: u8 = pixel_mask(depth);
    assert(x & m <= m) by (bit_vector);
}

/// Every pixel of an unpacked row lies below `2^depth`.
pub proof fn lemma_unpacked_row_in_range(lane: Seq<u8>, depth: u8, width: int)
    requires
        is_packed_depth(depth),
        0 <= width,
    ensures
        forall|p: int|
            0 <= p < width ==> (#[trigger] unpack_row(lane, depth, width)[p]) < pow2(depth as nat),
{
    assert forall|p: int| 0 <= p < width implies (#[trigger] unpack_row(lane, depth, width)[p])
        < pow2(depth as nat) by {
        lemma_unpacked_pixel_in_range(
            lane[p / pixels_per_byte(depth)],
            depth,
            p % pixels_per_byte(depth),
        );
    }
}

/// `pack_from` written out for eight pixels of one bit.
spec fn pack8(x0: u8, x1: u8, x2: u8, x3: u8, x4: u8, x5: u8, x6: u8, x7: u8) -> u8 {
    ((x0 & 1) << 7u8) | (((x1 & 1) << 6u8) | (((x2 & 1) << 5u8) | (((x3 & 1) << 4u8) | (((x4 & 1)
        << 3u8) | (((x5 & 1) << 2u8) | (((x6 & 1) << 1u8) | (((x7 & 1) << 0u8) | 0)))))))
}

/// `pack_from` written out for four pixels of two bits.
spec fn pack4(x0: u8, x1: u8, x2: u8, x3: u8) -> u8 {
    ((x0 & 3) << 6u8) | (((x1 & 3) << 4u8) | (((x2 & 3) << 2u8) | (((x3 & 3) << 0u8) | 0)))
}

/// `pack_from` written out for two pixels of four bits.
spec fn pack2(x0: u8, x1: u8) -> u8 {
    ((x0 & 15) << 4u8) | (((x1 & 15) << 0u8) | 0)
}

/// `pack_byte` is one of the three written-out forms.
proof fn lemma_pack_byte_written_out(x: Seq<u8>, depth: u8)
    requires
        is_packed_depth(depth),
    ensures
        depth == 1 ==> pack_byte(x, depth) == pack8(x[0], x[1], x[2], x[3], x[4], x[5], x[6], x[7]),
        depth == 2 ==> pack_byte(x, depth) == pack4(x[0], x[1], x[2], x[3]),
        depth == 4 ==> pack_byte(x, depth) == pack2(x[0], x[1]),
{
    lemma_layout(depth);
    reveal_with_fuel(pack_from, 9);
}

/// Packing the pixels of a byte gives the byte back.
pub proof fn lemma_pack_unpack_byte(byte: u8, depth: u8)
    requires
        is_packed_depth(depth),
    ensures
        pack_byte(unpack_byte(byte, depth), depth) == byte,
{
    lemma_layout(depth);
    lemma_pack_byte_written_out(unpack_byte(byte, depth), depth);
    if depth == 1 {
        assert(pack8(
            (byte >> 7u8) & 1,
            (byte >> 6u8) & 1,
            (byte >> 5u8) & 1,
            (byte >> 4u8) & 1,
            (byte >> 3u8) & 1,
            (byte >> 2u8) & 1,
            (byte >> 1u8) & 1,
            (byte >> 0u8) & 1,
        ) == byte) by (bit_vector);
    } else if depth == 2 {
        assert(pack4(
            (byte >> 6u8) & 3,
            (byte >> 4u8) & 3,
            (byte >> 2u8) & 3,
            (byte >> 0u8) & 3,
        ) == byte) by (bit_vector);
    } else {
        assert(pack2((byte >> 4u8) & 15, (byte >> 0u8) & 15) == byte) by (bit_vector);
    }
}

/// Unpacking a byte that was packed from pixels of `depth` bits gives the
/// pixels back.
pub proof fn lemma_unpack_pack_byte(pixels: Seq<u8>, depth: u8)
    requires
        is_packed_depth(depth),
        pixels.len() >= pixels_per_byte(depth),
        forall|j: int| 0 <= j < pixels_per_byte(depth) ==> pixels[j] < pow2(depth as nat),
    ensures
        forall|j: int|
            0 <= j < pixels_per_byte(depth) ==> #[trigger] unpack_pixel(
                pack_byte(pixels, depth),
                depth,
                j,
            ) == pixels[j],
{
    lemma_layout(depth);
    lemma_pack_byte_written_out(pixels, depth);
    let x = pixels;
    if depth == 1 {
        let (x0, x1, x2, x3, x4, x5, x6, x7) = (x[0], x[1], x[2], x[3], x[4], x[5], x[6], x[7]);
        let byte = pack8(x0, x1, x2, x3, x4, x5, x6, x7);
        assert(x0 == (byte >> 7u8) & 1 && x1 == (byte >> 6u8) & 1 && x2 == (byte >> 5u8) & 1 && x3
            == (byte >> 4u8) & 1 && x4 == (byte >> 3u8) & 1 && x5 == (byte >> 2u8) & 1 && x6 == (
        byte >> 1u8) & 1 && x7 == (byte >> 0u8) & 1) by (bit_vector)
            requires
                byte == pack8(x0, x1, x2, x3, x4, x5, x6, x7),
                x0 < 2 && x1 < 2 && x2 < 2 && x3 < 2 && x4 < 2 && x5 < 2 && x6 < 2 && x7 < 2,
        ;
    } else if depth == 2 {
        let (x0, x1, x2, x3) = (x[0], x[1], x[2], x[3]);
        let byte = pack4(x0, x1, x2, x3);
        assert(x0 == (byte >> 6u8) & 3 && x1 == (byte >> 4u8) & 3 && x2 == (byte >> 2u8) & 3 && x3
            == (byte >> 0u8) & 3) by (bit_vector)
            requires
                byte == pack4(x0, x1, x2, x3),
                x0 < 4 && x1 < 4 && x2 < 4 && x3 < 4,
        ;
    } else {
        let (x0, x1) = (x[0], x[1]);
        let byte = pack2(x0, x1);
        assert(x0 == (byte >> 4u8) & 15 && x1 == (byte >> 0u8) & 15) by (bit_vector)
            requires
                byte == pack2(x0, x1),
                x0 < 16 && x1 < 16,
        ;
    }
}

/// The pixels that byte `i` of a packed row holds: those of `pixels` from
/// `i * pixels_per_byte(depth)` on, and zeros where the row has ended.
pub open spec fn pixel_group(pixels: Seq<u8>, depth: u8, i: int) -> Seq<u8> {
    Seq::new(
        pixels_per_byte(depth) as nat,
        |j: int|
            if i * pixels_per_byte(depth) + j < pixels.len() {
                pixels[i * pixels_per_byte(depth) + j]
            } else {
                0u8
            },
    )
}

/// The packed form of a row of pixels: `packed_length` bytes, the unused bits
/// of the last of them zero.
pub open spec fn pack_row(pixels: Seq<u8>, depth: u8) -> Seq<u8> {
    Seq::new(
        packed_length(pixels.len() as int, depth) as nat,
        |i: int| pack_byte(pixel_group(pixels, depth, i), depth),
    )
}

/// Pixel `j` of byte `i` is pixel `i * pixels_per_byte(depth) + j` of the row.
proof fn lemma_pixel_position(depth: u8, i: int, j: int)
    requires
        is_packed_depth(depth),
        0 <= i,
        0 <= j < pixels_per_byte(depth),
    ensures
        (i * pixels_per_byte(depth) + j) / pixels_per_byte(depth) == i,
        (i * pixels_per_byte(depth) + j) % pixels_per_byte(depth) == j,
        i * pixels_per_byte(depth) >= 0,
        depth == 1 ==> i * pixels_per_byte(depth) == 8 * i,
        depth == 2 ==> i * pixels_per_byte(depth) == 4 * i,
        depth == 4 ==> i * pixels_per_byte(depth) == 2 * i,
{
    let d = pixels_per_byte(depth);
    assert(d == 8 ==> i * d == 8 * i) by (nonlinear_arith);
    assert(d == 4 ==> i * d == 4 * i) by (nonlinear_arith);
    assert(d == 2 ==> i * d == 2 * i) by (nonlinear_arith);
}

/// Round trip from pixels: a row of pixels of `depth` bits, packed and then
/// unpacked to its width, is the same row.
pub proof fn lemma_unpack_pack_row(pixels: Seq<u8>, depth: u8)
    requires
        is_packed_depth(depth),
        forall|p: int| 0 <= p < pixels.len() ==> pixels[p] < pow2(depth as nat),
    ensures
        unpack_row(pack_row(pixels, depth), depth, pixels.len() as int) == pixels,
{
    lemma2_to64();
    lemma_packed_length(pixels.len() as int, depth);
    let packed = pack_row(pixels, depth);
    let per_byte = pixels_per_byte(depth);
    assert forall|p: int| 0 <= p < pixels.len() implies unpack_pixel(
        packed[p / per_byte],
        depth,
        p % per_byte,
    ) == pixels[p] by {
        let i = p / per_byte;
        let j = p % per_byte;
        lemma_pixel_position(depth, i, j);
        let group = pixel_group(pixels, depth, i);
        lemma_unpack_pack_byte(group, depth);
        assert(group[j] == pixels[p]);
    }
    assert(unpack_row(packed, depth, pixels.len() as int) =~= pixels);
}

/// Round trip from bytes: a packed lane, unpacked to `width` pixels and packed
/// again, has its length, and is the same in every byte that the row fills
/// entirely.
pub proof fn lemma_pack_unpack_row(lane: Seq<u8>, depth: u8, width: int)
    requires
        is_packed_depth(depth),
        0 <= width,
        lane.len() == packed_length(width, depth),
    ensures
        pack_row(unpack_row(lane, depth, width), depth).len() == lane.len(),
        forall|i: int|
            0 <= i && (i + 1) * pixels_per_byte(depth) <= width ==> #[trigger] pack_row(
                unpack_row(lane, depth, width),
                depth,
            )[i] == lane[i],
        width == lane.len() * pixels_per_byte(depth) ==> pack_row(
            unpack_row(lane, depth, width),
            depth,
        ) == lane,
{
    lemma_packed_length(width, depth);
    let row = unpack_row(lane, depth, width);
    let packed = pack_row(row, depth);
    let per_byte = pixels_per_byte(depth);
    assert forall|i: int| 0 <= i && (i + 1) * per_byte <= width implies #[trigger] packed[i]
        == lane[i] by {
        lemma_pixel_position(depth, i, 0);
        lemma_pixel_position(depth, i + 1, 0);
        let group = pixel_group(row, depth, i);
        assert forall|j: int| 0 <= j < per_byte implies group[j] == unpack_pixel(
            lane[i],
            depth,
            j,
        ) by {
            lemma_pixel_position(depth, i, j);
        }
        assert(group =~= unpack_byte(lane[i], depth));
        lemma_pack_unpack_byte(lane[i], depth);
    }
    if width == lane.len() * per_byte {
        assert forall|i: int| 0 <= i < lane.len() implies packed[i] == lane[i] by {
            lemma_pixel_position(depth, i + 1, 0);
            lemma_pixel_position(depth, lane.len() as int, 0);
        }
        assert(packed =~= lane);
    }
}

/// What unpacking in place rests on. Pixel `p` of a row comes from a packed
/// byte of the lane, and lies at or before the place that this byte has at the
/// end of the buffer: writing the pixel cannot reach a byte that has not been
/// read yet. The pixel after it is the next of the same byte, or the first of
/// the next byte.
proof fn lemma_pixel_place(depth: u8, width: int, p: int)
    requires
        is_packed_depth(depth),
        0 <= p < width,
    ensures
        0 <= p / pixels_per_byte(depth) < packed_length(width, depth),
        p <= width - packed_length(width, depth) + p / pixels_per_byte(depth),
        0 <= p % pixels_per_byte(depth) < pixels_per_byte(depth),
        p % pixels_per_byte(depth) + 1 < pixels_per_byte(depth) ==> (p + 1) / pixels_per_byte(depth)
            == p / pixels_per_byte(depth) && (p + 1) % pixels_per_byte(depth) == p
            % pixels_per_byte(depth) + 1,
        p % pixels_per_byte(depth) + 1 == pixels_per_byte(depth) ==> (p + 1) / pixels_per_byte(
            depth,
        ) == p / pixels_per_byte(depth) + 1 && (p + 1) % pixels_per_byte(depth) == 0,
{
    lemma_packed_length(width, depth);
    if depth == 1 {
        assert(pixels_per_byte(depth) == 8);
    } else if depth == 2 {
        assert(pixels_per_byte(depth) == 4);
    } else {
        assert(pixels_per_byte(depth) == 2);
    }
}

/// Unpacks a row whose packed bytes lie at the end of `buffer`, so that the
/// whole of `buffer` then holds one pixel per byte.
///
/// The row has as many pixels as `buffer` has bytes. Its packed form takes
/// `packed_length` bytes, which the caller has placed in the last bytes of
/// `buffer`; what the bytes before them hold does not matter. Each packed byte
/// is read before a pixel is written over it, and no pixel is written over a
/// packed byte that has not been read yet.
pub fn unpack_in_place(buffer: &mut [u8], depth: u8)
    requires
        is_packed_depth(depth),
    ensures
        final(buffer)@ == unpack_row(
            old(buffer)@.skip(old(buffer)@.len() - packed_length(old(buffer)@.len() as int, depth)),
            depth,
            old(buffer)@.len() as int,
        ),
        forall|p: int|
            0 <= p < final(buffer)@.len() ==> (#[trigger] final(buffer)@[p]) < pow2(depth as nat),
{
    let width: usize = buffer.len();
    let per_byte: usize = if depth == 1 {
        8
    } else if depth == 2 {
        4
    } else {
        2
    };
    let lane_length: usize = width / per_byte + if width % per_byte == 0 {
        0
    } else {
        1
    };
    proof {
        lemma_packed_length(width as int, depth);
    }
    let offset: usize = width - lane_length;
    let mask: u8 = 0xFFu8 >> (8 - depth);
    let ghost lane = old(buffer)@.skip(offset as int);
    let mut p: usize = 0;
    let mut i: usize = 0;
    let mut j: usize = 0;
    let mut byte: u8 = 0;
    let mut shift: u8 = 8 - depth;
    while p < width
        invariant
            is_packed_depth(depth),
            per_byte == pixels_per_byte(depth),
            width == old(buffer)@.len(),
            buffer@.len() == width,
            lane_length == packed_length(width as int, depth),
            offset == width - lane_length,
            mask == pixel_mask(depth),
            lane == old(buffer)@.skip(offset as int),
            p <= width,
            i == (p as int) / pixels_per_byte(depth),
            j == (p as int) % pixels_per_byte(depth),
            shift == pixel_shift(depth, j as int),
            j > 0 ==> byte == lane[i as int],
            forall|q: int|
                0 <= q < p ==> #[trigger] buffer@[q] == unpack_pixel(
                    lane[q / pixels_per_byte(depth)],
                    depth,
                    q % pixels_per_byte(depth),
                ),
            forall|q: int|
                offset + i + (if j > 0 {
                    1int
                } else {
                    0int
                }) <= q < width ==> #[trigger] buffer@[q] == old(buffer)@[q],
        decreases width - p,
    {
        proof {
            lemma_pixel_place(depth, width as int, p as int);
            lemma_pixel_shift(depth, j as int);
            if j + 1 < per_byte {
                lemma_pixel_shift(depth, j + 1);
            }
            lemma_pixel_shift(depth, 0);
        }
        if j == 0 {
            byte = buffer[offset + i];
        }
        buffer[p] = (byte >> shift) & mask;
        p = p + 1;
        j = j + 1;
        if j == per_byte {
            j = 0;
            i = i + 1;
            shift = 8 - depth;
        } else {
            shift = shift - depth;
        }
    }
    assert(buffer@ =~= unpack_row(lane, depth, width as int));
    proof {
        lemma_unpacked_row_in_range(lane, depth, width as int);
    }
}

} // verus!
