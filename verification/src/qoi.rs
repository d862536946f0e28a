//! Unpacking of images in the QOI container: a header of 14 bytes, then
//! chunks that give each pixel outright, by its difference to the pixel
//! before, by its place in a table of pixels seen, or as a repetition, and
//! an end marker of 8 bytes.

use vstd::prelude::*;

verus! {

/// A pixel with an alpha channel, as the container stores it.
#[derive(Clone, Copy, Debug, PartialEq, Eq, Structural)]
pub struct Rgba {
    pub r: u8,
    pub g: u8,
    pub b: u8,
    pub a: u8,
}

/// The length of the header.
pub const HEADER_LEN: usize = 14;

/// The length of the end marker: seven bytes of zero and one of one.
pub const END_LEN: usize = 8;

/// What the decoder knows between two chunks.
pub struct DecoderState {
    /// The pixel decoded last.
    pub px: Rgba,
    /// The table of pixels seen, by their hash.
    pub index: Seq<Rgba>,
    /// How often the pixel decoded last is still to be repeated.
    pub run: nat,
}

/// The place of a pixel in the table of pixels seen.
pub open spec fn spec_hash(p: Rgba) -> int {
    (p.r * 3 + p.g * 5 + p.b * 7 + p.a * 11) % 64
}

/// The sum of a channel and a difference, wrapping around at 256.
pub open spec fn wrap(v: u8, d: int) -> u8 {
    ((v + d + 256) % 256) as u8
}

/// The state before the first chunk: opaque black as the pixel before, and
/// a table of transparent black.
pub open spec fn initial_state() -> DecoderState {
    DecoderState {
        px: Rgba { r: 0, g: 0, b: 0, a: 255 },
        index: Seq::new(64, |i: int| Rgba { r: 0, g: 0, b: 0, a: 0 }),
        run: 0,
    }
}

/// The number of bytes of the chunk that begins with the byte `tag`.
pub open spec fn chunk_len(tag: u8) -> int {
    if tag == 0xfe {
        4
    } else if tag == 0xff {
        5
    } else if tag & 0xc0 == 0x80 {
        2
    } else {
        1
    }
}

/// The pixel that the chunk at `p` gives, after the pixel `px`.
#[verifier::opaque]
pub open spec fn chunk_pixel(bytes: Seq<u8>, p: int, st: DecoderState) -> Rgba {
    let tag = bytes[p];
    let px = st.px;
    if tag == 0xfe {
        Rgba { r: bytes[p + 1], g: bytes[p + 2], b: bytes[p + 3], a: px.a }
    } else if tag == 0xff {
        Rgba { r: bytes[p + 1], g: bytes[p + 2], b: bytes[p + 3], a: bytes[p + 4] }
    } else if tag & 0xc0 == 0x00 {
        st.index[(tag & 0x3f) as int]
    } else if tag & 0xc0 == 0x40 {
        Rgba {
            r: wrap(px.r, ((tag >> 4) & 0x03) - 2),
            g: wrap(px.g, ((tag >> 2) & 0x03) - 2),
            b: wrap(px.b, (tag & 0x03) - 2),
            a: px.a,
        }
    } else if tag & 0xc0 == 0x80 {
        let dg = (tag & 0x3f) - 32;
        let second = bytes[p + 1];
        Rgba {
            r: wrap(px.r, dg + ((second >> 4) & 0x0f) - 8),
            g: wrap(px.g, dg),
            b: wrap(px.b, dg + (second & 0x0f) - 8),
            a: px.a,
        }
    } else {
        px
    }
}

/// How often the chunk that begins with `tag` has its pixel repeated after
/// the first time.
pub open spec fn chunk_run(tag: u8) -> nat {
    if tag != 0xfe && tag != 0xff && tag & 0xc0 == 0xc0 {
        (tag & 0x3f) as nat
    } else {
        0
    }
}

/// The state after the chunk at `p`.
pub open spec fn after_chunk(bytes: Seq<u8>, p: int, st: DecoderState) -> DecoderState {
    let px = chunk_pixel(bytes, p, st);
    DecoderState { px, index: st.index.update(spec_hash(px), px), run: chunk_run(bytes[p]) }
}

/// The pixels of an image of `count` pixels whose chunks begin at `p`,
/// appended to `done`, and the place where the chunks end; `None` where the
/// chunks end before the image does. The chunks end at `end`.
#[verifier::opaque]
pub open spec fn decode_pixels(
    bytes: Seq<u8>,
    p: int,
    end: int,
    st: DecoderState,
    count: nat,
    done: Seq<Rgba>,
) -> Option<(Seq<Rgba>, int)>
    decreases count,
{
    if count == 0 {
        Some((done, p))
    } else if st.run > 0 {
        decode_pixels(
            bytes,
            p,
            end,
            DecoderState { run: (st.run - 1) as nat, ..st },
            (count - 1) as nat,
            done.push(st.px),
        )
    } else if p >= end || p + chunk_len(bytes[p]) > end {
        None
    } else {
        let next = after_chunk(bytes, p, st);
        decode_pixels(
            bytes,
            p + chunk_len(bytes[p]),
            end,
            next,
            (count - 1) as nat,
            done.push(next.px),
        )
    }
}

/// A big-endian number of 32 bits.
pub open spec fn spec_be32(bytes: Seq<u8>, p: int) -> int {
    bytes[p] * 0x100_0000 + bytes[p + 1] * 0x1_0000 + bytes[p + 2] * 0x100 + bytes[p + 3]
}

/// Whether `bytes` begins with the header of an image.
pub open spec fn header_ok(bytes: Seq<u8>) -> bool {
    &&& bytes.len() >= HEADER_LEN + END_LEN
    &&& bytes[0] == 0x71
    &&& bytes[1] == 0x6f
    &&& bytes[2] == 0x69
    &&& bytes[3] == 0x66
    &&& (bytes[12] == 3 || bytes[12] == 4)
    &&& (bytes[13] == 0 || bytes[13] == 1)
}

/// Whether the end marker stands at `p` and ends `bytes`.
pub open spec fn end_ok(bytes: Seq<u8>, p: int) -> bool {
    &&& p + END_LEN == bytes.len()
    &&& bytes.subrange(p, p + 8) == seq![0u8, 0u8, 0u8, 0u8, 0u8, 0u8, 0u8, 1u8]
}

/// The width of the image, from the header.
pub open spec fn spec_width(bytes: Seq<u8>) -> int {
    spec_be32(bytes, 4)
}

/// The height of the image, from the header.
pub open spec fn spec_height(bytes: Seq<u8>) -> int {
    spec_be32(bytes, 8)
}

/// The pixels of the image that `bytes` holds, row by row; `None` where
/// `bytes` is no image: the header is wrong, the chunks end before the image
/// does, or anything but the end marker follows them.
pub open spec fn spec_unpack(bytes: Seq<u8>) -> Option<Seq<Rgba>> {
    if !header_ok(bytes) {
        None
    } else {
        match decode_pixels(
            bytes,
            HEADER_LEN as int,
            bytes.len() - END_LEN,
            initial_state(),
            (spec_width(bytes) * spec_height(bytes)) as nat,
            Seq::empty(),
        ) {
            None => None,
            Some((pixels, p)) => if end_ok(bytes, p) {
                Some(pixels)
            } else {
                None
            },
        }
    }
}

/// An unpacked image.
pub struct QoiImage {
    pub width: u32,
    pub height: u32,
    /// The pixels, row by row.
    pub pixels: Vec<Rgba>,
}

/// The place of a pixel in the table of pixels seen.
fn hash(p: Rgba) -> (h: usize)
    ensures
        h == spec_hash(p),
        h < 64,
{
    ((p.r as u32 * 3 + p.g as u32 * 5 + p.b as u32 * 7 + p.a as u32 * 11) % 64) as usize
}

/// The sum of a channel and a difference given with its bias, wrapping
/// around at 256.
fn shifted(v: u8, biased: u8, bias: u8) -> (r: u8)
    requires
        bias <= 40,
        biased <= 80,
    ensures
        r == wrap(v, biased - bias),
{
    ((v as u32 + biased as u32 + 256 - bias as u32) % 256) as u8
}

/// A big-endian number of 32 bits.
fn be32(bytes: &Vec<u8>, p: usize) -> (v: u32)
    requires
        p + 4 <= bytes.len(),
    ensures
        v == spec_be32(bytes@, p as int),
{
    let v: u64 = bytes[p] as u64 * 0x100_0000 + bytes[p + 1] as u64 * 0x1_0000 + bytes[p + 2] as u64
        * 0x100 + bytes[p + 3] as u64;
    v as u32
}

/// The number of bytes of the chunk that begins with the byte `tag`.
fn chunk_length(tag: u8) -> (len: usize)
    ensures
        len == chunk_len(tag),
        1 <= len <= 5,
{
    if tag == 0xfe {
        4
    } else if tag == 0xff {
        5
    } else if tag & 0xc0 == 0x80 {
        2
    } else {
        1
    }
}

/// Reads the chunk at `p`: the pixel that it gives after the pixel `px`,
/// and how often that pixel is to be repeated.
fn read_chunk(bytes: &Vec<u8>, p: usize, px: Rgba, index: &Vec<Rgba>) -> (r: (Rgba, u8))
    requires
        index.len() == 64,
        p < bytes.len(),
        p + chunk_len(bytes[p as int]) <= bytes.len(),
    ensures
        r.0 == chunk_pixel(bytes@, p as int, DecoderState { px, index: index@, run: 0 }),
        r.1 == chunk_run(bytes[p as int]),
        r.1 <= 63,
{
    let tag = bytes[p];
    proof {
        reveal(chunk_pixel);
        assert(tag & 0xc0 == 0x00 || tag & 0xc0 == 0x40 || tag & 0xc0 == 0x80 || tag & 0xc0 == 0xc0)
            by (bit_vector);
        assert(tag & 0x3f <= 63) by (bit_vector);
        assert((tag >> 4) & 0x03 <= 3 && (tag >> 2) & 0x03 <= 3 && tag & 0x03 <= 3) by (bit_vector);
    }
    if tag == 0xfe {
        (Rgba { r: bytes[p + 1], g: bytes[p + 2], b: bytes[p + 3], a: px.a }, 0)
    } else if tag == 0xff {
        (Rgba { r: bytes[p + 1], g: bytes[p + 2], b: bytes[p + 3], a: bytes[p + 4] }, 0)
    } else if tag & 0xc0 == 0x00 {
        (index[(tag & 0x3f) as usize], 0)
    } else if tag & 0xc0 == 0x40 {
        (
            Rgba {
                r: shifted(px.r, (tag >> 4) & 0x03, 2),
                g: shifted(px.g, (tag >> 2) & 0x03, 2),
                b: shifted(px.b, tag & 0x03, 2),
                a: px.a,
            },
            0,
        )
    } else if tag & 0xc0 == 0x80 {
        let second = bytes[p + 1];
        proof {
            assert((second >> 4) & 0x0f <= 15 && second & 0x0f <= 15) by (bit_vector);
        }
        let dg: u8 = tag & 0x3f;
        (
            Rgba {
                r: shifted(px.r, dg + ((second >> 4) & 0x0f), 40),
                g: shifted(px.g, dg, 32),
                b: shifted(px.b, dg + (second & 0x0f), 40),
                a: px.a,
            },
            0,
        )
    } else {
        (px, tag & 0x3f)
    }
}

/// Whether the end marker stands at `p`.
fn at_end_marker(bytes: &Vec<u8>, p: usize) -> (b: bool)
    requires
        p + END_LEN == bytes.len(),
    ensures
        b == end_ok(bytes@, p as int),
{
    let marked = bytes[p] == 0 && bytes[p + 1] == 0 && bytes[p + 2] == 0 && bytes[p + 3] == 0
        && bytes[p + 4] == 0 && bytes[p + 5] == 0 && bytes[p + 6] == 0 && bytes[p + 7] == 1;
    proof {
        let tail = bytes@.subrange(p as int, p + 8);
        let marker = seq![0u8, 0u8, 0u8, 0u8, 0u8, 0u8, 0u8, 1u8];
        if marked {
            assert(tail =~= marker);
        } else {
            assert(tail[0] == bytes[p as int] && tail[1] == bytes[p + 1] && tail[2] == bytes[p + 2]
                && tail[3] == bytes[p + 3] && tail[4] == bytes[p + 4] && tail[5] == bytes[p + 5]
                && tail[6] == bytes[p + 6] && tail[7] == bytes[p + 7]);
            assert(tail != marker);
        }
    }
    marked
}

/// The table of pixels seen before the first chunk.
fn empty_index() -> (index: Vec<Rgba>)
    ensures
        index@ == initial_state().index,
{
    let mut index: Vec<Rgba> = Vec::new();
    let mut i: usize = 0;
    while i < 64
        invariant
            i <= 64,
            index.len() == i,
            forall|j: int| 0 <= j < i ==> index[j] == (Rgba { r: 0, g: 0, b: 0, a: 0 }),
        decreases 64 - i,
    {
        index.push(Rgba { r: 0, g: 0, b: 0, a: 0 });
        i += 1;
    }
    assert(index@ =~= initial_state().index);
    index
}

/// One step of the decoder: what `decode_pixels` does for the next pixel.
proof fn lemma_decode_step(
    bytes: Seq<u8>,
    p: int,
    end: int,
    st: DecoderState,
    count: nat,
    done: Seq<Rgba>,
)
    requires
        count > 0,
    ensures
        st.run > 0 ==> decode_pixels(bytes, p, end, st, count, done) == decode_pixels(
            bytes,
            p,
            end,
            DecoderState { run: (st.run - 1) as nat, ..st },
            (count - 1) as nat,
            done.push(st.px),
        ),
        st.run == 0 && (p >= end || p + chunk_len(bytes[p]) > end) ==> decode_pixels(
            bytes,
            p,
            end,
            st,
            count,
            done,
        ).is_none(),
        st.run == 0 && p < end && p + chunk_len(bytes[p]) <= end ==> decode_pixels(
            bytes,
            p,
            end,
            st,
            count,
            done,
        ) == decode_pixels(
            bytes,
            p + chunk_len(bytes[p]),
            end,
            after_chunk(bytes, p, st),
            (count - 1) as nat,
            done.push(after_chunk(bytes, p, st).px),
        ),
{
    reveal_with_fuel(decode_pixels, 2);
}

/// Unpacks an image.
pub fn unpack(bytes: &Vec<u8>) -> (r: Option<QoiImage>)
    ensures
        r.is_some() == spec_unpack(bytes@).is_some(),
        r matches Some(image) ==> {
            &&& image.width == spec_width(bytes@)
            &&& image.height == spec_height(bytes@)
            &&& Some(image.pixels@) == spec_unpack(bytes@)
            &&& image.pixels@.len() == image.width * image.height
        },
{
    if bytes.len() < HEADER_LEN + END_LEN {
        return None;
    }
    if bytes[0] != 0x71 || bytes[1] != 0x6f || bytes[2] != 0x69 || bytes[3] != 0x66 {
        return None;
    }
    if (bytes[12] != 3 && bytes[12] != 4) || (bytes[13] != 0 && bytes[13] != 1) {
        return None;
    }
    let width = be32(bytes, 4);
    let height = be32(bytes, 8);
    assert(width * height <= 0xffff_ffff * 0xffff_ffff) by (nonlinear_arith)
        requires
            0 <= width <= 0xffff_ffff,
            0 <= height <= 0xffff_ffff,
    ;
    let total: u64 = width as u64 * height as u64;
    let end: usize = bytes.len() - END_LEN;
    let ghost whole = decode_pixels(
        bytes@,
        HEADER_LEN as int,
        end as int,
        initial_state(),
        total as nat,
        Seq::empty(),
    );
    let mut px = Rgba { r: 0, g: 0, b: 0, a: 255 };
    let mut index = empty_index();
    let mut run: u8 = 0;
    let mut p: usize = HEADER_LEN;
    let mut pixels: Vec<Rgba> = Vec::new();
    let mut n: u64 = 0;
    while n < total
        invariant
            n <= total,
            end + END_LEN == bytes.len(),
            HEADER_LEN <= p <= end,
            header_ok(bytes@),
            total == spec_width(bytes@) * spec_height(bytes@),
            whole == decode_pixels(
                bytes@,
                HEADER_LEN as int,
                end as int,
                initial_state(),
                total as nat,
                Seq::empty(),
            ),
            index.len() == 64,
            run <= 63,
            pixels@.len() == n,
            whole == decode_pixels(
                bytes@,
                p as int,
                end as int,
                DecoderState { px, index: index@, run: run as nat },
                (total - n) as nat,
                pixels@,
            ),
        decreases total - n,
    {
        let ghost st = DecoderState { px, index: index@, run: run as nat };
        proof {
            lemma_decode_step(bytes@, p as int, end as int, st, (total - n) as nat, pixels@);
        }
        if run > 0 {
            run = run - 1;
        } else {
            if p >= end {
                return None;
            }
            let len = chunk_length(bytes[p]);
            if len > end - p {
                return None;
            }
            let (next, repeat) = read_chunk(bytes, p, px, &index);
            px = next;
            run = repeat;
            index.set(hash(px), px);
            proof {
                let after = after_chunk(bytes@, p as int, st);
                assert(st == (DecoderState { px: st.px, index: st.index, run: 0 }));
                assert(px == after.px);
                assert(index@ =~= after.index);
                assert(run == after.run);
                assert(DecoderState { px, index: index@, run: run as nat } == after);
            }
            p = p + len;
        }
        pixels.push(px);
        n = n + 1;
    }
    proof {
        reveal_with_fuel(decode_pixels, 1);
        assert(whole == Some((pixels@, p as int)));
    }
    if p != end || !at_end_marker(bytes, p) {
        return None;
    }
    Some(QoiImage { width, height, pixels })
}

} // verus!
