//! What a QOI decoder reads out of a stream, stated as a specification, and
//! the proof that it reads back every image that the encoder wrote.
//!
//! Nothing here is executable: the decoder is the yardstick that the encoder's
//! stream is held against.
use crate::constants::{
    QOI_MAGIC, QOI_MASK_2, QOI_OP_DIFF, QOI_OP_INDEX, QOI_OP_LUMA, QOI_OP_RGB, QOI_OP_RGBA,
    QOI_OP_RUN,
};
use crate::qoi::{
    bytes_after, channel_count, diff_byte, flush_run, index_byte, initial_state, literal_chunk,
    luma_byte1, luma_byte2, luma_diff, pixel_at, pixel_hash, pixels_of, qoi_body, qoi_header,
    qoi_stream, run_byte, small_diff, start_pixel, state_after, state_ok, step_bytes,
    step_state, zero_pixel, EncoderState, Pixel,
};
use vstd::prelude::*;

verus! {

/// What the decoder remembers between two chunks.
pub struct DecoderState {
    /// The pixel decoded last.
    pub prev: Pixel,
    /// The index table, 64 slots.
    pub index: Seq<Pixel>,
}

/// The state before the first chunk.
pub open spec fn decoder_start() -> DecoderState {
    DecoderState { prev: start_pixel(), index: Seq::new(64, |i: int| zero_pixel()) }
}

/// The state after a chunk that gave the pixel `px`: the pixel is the previous
/// one and stands in its slot of the table.
pub open spec fn remember(d: DecoderState, px: Pixel) -> DecoderState {
    DecoderState { prev: px, index: d.index.update(pixel_hash(px), px) }
}

/// What one chunk says.
pub struct Chunk {
    /// The number of bytes of the chunk.
    pub len: nat,
    /// The pixel that the chunk gives.
    pub px: Pixel,
    /// How often the pixel is to be taken: more than once for a run only.
    pub count: nat,
}

/// The chunk at the front of `bytes`, or `None` where the bytes end inside
/// it.
pub open spec fn read_chunk(d: DecoderState, bytes: Seq<u8>) -> Option<Chunk> {
    if bytes.len() == 0 {
        None
    } else {
        let b1 = bytes[0];
        if b1 == QOI_OP_RGB {
            if bytes.len() < 4 {
                None
            } else {
                Some(
                    Chunk {
                        len: 4,
                        px: Pixel { r: bytes[1], g: bytes[2], b: bytes[3], a: d.prev.a },
                        count: 1,
                    },
                )
            }
        } else if b1 == QOI_OP_RGBA {
            if bytes.len() < 5 {
                None
            } else {
                Some(
                    Chunk {
                        len: 5,
                        px: Pixel { r: bytes[1], g: bytes[2], b: bytes[3], a: bytes[4] },
                        count: 1,
                    },
                )
            }
        } else if (b1 & QOI_MASK_2) == QOI_OP_INDEX {
            Some(Chunk { len: 1, px: d.index[(b1 & 0x3f) as int], count: 1 })
        } else if (b1 & QOI_MASK_2) == QOI_OP_DIFF {
            Some(
                Chunk {
                    len: 1,
                    px: Pixel {
                        r: d.prev.r.wrapping_add((b1 >> 4) & 0x03).wrapping_sub(2),
                        g: d.prev.g.wrapping_add((b1 >> 2) & 0x03).wrapping_sub(2),
                        b: d.prev.b.wrapping_add(b1 & 0x03).wrapping_sub(2),
                        a: d.prev.a,
                    },
                    count: 1,
                },
            )
        } else if (b1 & QOI_MASK_2) == QOI_OP_LUMA {
            if bytes.len() < 2 {
                None
            } else {
                let b2 = bytes[1];
                let vg = (b1 & 0x3f).wrapping_sub(32);
                Some(
                    Chunk {
                        len: 2,
                        px: Pixel {
                            r: d.prev.r.wrapping_add(
                                vg.wrapping_sub(8).wrapping_add((b2 >> 4) & 0x0f),
                            ),
                            g: d.prev.g.wrapping_add(vg),
                            b: d.prev.b.wrapping_add(vg.wrapping_sub(8).wrapping_add(b2 & 0x0f)),
                            a: d.prev.a,
                        },
                        count: 1,
                    },
                )
            }
        } else {
            Some(Chunk { len: 1, px: d.prev, count: ((b1 & 0x3f) + 1) as nat })
        }
    }
}

/// `n` times the pixel `px`.
pub open spec fn repeat(px: Pixel, n: nat) -> Seq<Pixel> {
    Seq::new(n, |i: int| px)
}

/// `front` followed by `rest`, where there is a `rest`.
pub open spec fn prepend(front: Seq<Pixel>, rest: Option<Seq<Pixel>>) -> Option<Seq<Pixel>> {
    match rest {
        Some(r) => Some(front + r),
        None => None,
    }
}

/// The next `remaining` pixels that the chunks in `bytes` give, or `None`
/// where the bytes end before that many pixels. What follows the last chunk
/// that is needed is not looked at.
pub open spec fn decode_pixels(d: DecoderState, bytes: Seq<u8>, remaining: nat) -> Option<
    Seq<Pixel>,
>
    decreases remaining,
{
    if remaining == 0 {
        Some(Seq::empty())
    } else {
        match read_chunk(d, bytes) {
            None => None,
            Some(c) => {
                let n: nat = if 0 < c.count && c.count < remaining {
                    c.count
                } else {
                    remaining
                };
                prepend(
                    repeat(c.px, n),
                    decode_pixels(remember(d, c.px), bytes.skip(c.len as int), (remaining - n) as nat),
                )
            },
        }
    }
}

/// Four bytes, most significant first, as an integer.
pub open spec fn be_u32(b0: u8, b1: u8, b2: u8, b3: u8) -> u32 {
    ((b0 as u32) << 24) | ((b1 as u32) << 16) | ((b2 as u32) << 8) | (b3 as u32)
}

/// Channel `k` of a pixel.
pub open spec fn channel(px: Pixel, k: int) -> u8 {
    if k == 0 {
        px.r
    } else if k == 1 {
        px.g
    } else if k == 2 {
        px.b
    } else {
        px.a
    }
}

/// The pixels as packed channel data, with or without their alpha.
pub open spec fn pack(pixels: Seq<Pixel>, has_alpha: bool) -> Seq<u8> {
    if has_alpha {
        Seq::new(4 * pixels.len(), |j: int| channel(pixels[j / 4], j % 4))
    } else {
        Seq::new(3 * pixels.len(), |j: int| channel(pixels[j / 3], j % 3))
    }
}

/// An image as a decoder hands it out.
pub struct QoiImage {
    /// The width in pixels.
    pub width: u32,
    /// The height in pixels.
    pub height: u32,
    /// The data has four channels, not three.
    pub has_alpha: bool,
    /// The channels are linear, not sRGB.
    pub linear: bool,
    /// The packed channel data.
    pub data: Seq<u8>,
}

/// The image that a stream holds, or `None` where the bytes are no stream:
/// too short, a wrong magic, a channel count other than 3 or 4, a colorspace
/// byte other than 0 or 1, or chunks that end before the last pixel.
#[verifier::opaque]
pub open spec fn qoi_decode(bytes: Seq<u8>) -> Option<QoiImage> {
    if bytes.len() < 22 {
        None
    } else if be_u32(bytes[0], bytes[1], bytes[2], bytes[3]) != QOI_MAGIC {
        None
    } else if bytes[12] != 3 && bytes[12] != 4 {
        None
    } else if bytes[13] > 1 {
        None
    } else {
        let width = be_u32(bytes[4], bytes[5], bytes[6], bytes[7]);
        let height = be_u32(bytes[8], bytes[9], bytes[10], bytes[11]);
        let has_alpha = bytes[12] == 4;
        match decode_pixels(
            decoder_start(),
            bytes.subrange(14, bytes.len() - 8),
            (width * height) as nat,
        ) {
            None => None,
            Some(pixels) => Some(
                QoiImage {
                    width,
                    height,
                    has_alpha,
                    linear: bytes[13] == 1,
                    data: pack(pixels, has_alpha),
                },
            ),
        }
    }
}

/// Encoder and decoder are in step: they hold the same previous pixel, and
/// every slot of the encoder's table either holds what the decoder's holds or
/// holds a pixel that does not belong there, which the encoder never finds.
pub open spec fn in_step(s: EncoderState, d: DecoderState) -> bool {
    &&& state_ok(s)
    &&& d.index.len() == 64
    &&& s.prev == d.prev
    &&& forall|slot: int|
        0 <= slot < 64 ==> (#[trigger] s.index[slot] == d.index[slot] || pixel_hash(s.index[slot])
            != slot)
    &&& (s.index[pixel_hash(s.prev)] == s.prev || pixel_hash(s.index[pixel_hash(s.prev)])
        != pixel_hash(s.prev))
}

proof fn lemma_run_bits(r1: u8)
    by (bit_vector)
    requires
        r1 < 62,
    ensures
        (QOI_OP_RUN | r1) != QOI_OP_RGB,
        (QOI_OP_RUN | r1) != QOI_OP_RGBA,
        ((QOI_OP_RUN | r1) & QOI_MASK_2) == QOI_OP_RUN,
        ((QOI_OP_RUN | r1) & 0x3f) == r1,
{
}

proof fn lemma_index_bits(slot: u8)
    by (bit_vector)
    requires
        slot < 64,
    ensures
        (QOI_OP_INDEX | slot) != QOI_OP_RGB,
        (QOI_OP_INDEX | slot) != QOI_OP_RGBA,
        ((QOI_OP_INDEX | slot) & QOI_MASK_2) == QOI_OP_INDEX,
        ((QOI_OP_INDEX | slot) & 0x3f) == slot,
{
}

proof fn lemma_diff_bits(dr: u8, dg: u8, db: u8)
    by (bit_vector)
    requires
        dr < 4,
        dg < 4,
        db < 4,
    ensures
        (QOI_OP_DIFF | (dr << 4) | (dg << 2) | db) != QOI_OP_RGB,
        (QOI_OP_DIFF | (dr << 4) | (dg << 2) | db) != QOI_OP_RGBA,
        ((QOI_OP_DIFF | (dr << 4) | (dg << 2) | db) & QOI_MASK_2) == QOI_OP_DIFF,
        (((QOI_OP_DIFF | (dr << 4) | (dg << 2) | db) >> 4) & 0x03) == dr,
        (((QOI_OP_DIFF | (dr << 4) | (dg << 2) | db) >> 2) & 0x03) == dg,
        ((QOI_OP_DIFF | (dr << 4) | (dg << 2) | db) & 0x03) == db,
{
}

proof fn lemma_luma_bits(g6: u8, hi: u8, lo: u8)
    by (bit_vector)
    requires
        g6 < 64,
        hi < 16,
        lo < 16,
    ensures
        (QOI_OP_LUMA | g6) != QOI_OP_RGB,
        (QOI_OP_LUMA | g6) != QOI_OP_RGBA,
        ((QOI_OP_LUMA | g6) & QOI_MASK_2) == QOI_OP_LUMA,
        ((QOI_OP_LUMA | g6) & 0x3f) == g6,
        ((((hi << 4) | lo) >> 4) & 0x0f) == hi,
        (((hi << 4) | lo) & 0x0f) == lo,
{
}

proof fn lemma_tag_bits()
    by (bit_vector)
    ensures
        QOI_OP_INDEX != QOI_OP_DIFF,
        QOI_OP_INDEX != QOI_OP_LUMA,
        QOI_OP_INDEX != QOI_OP_RUN,
        QOI_OP_DIFF != QOI_OP_LUMA,
        QOI_OP_DIFF != QOI_OP_RUN,
        QOI_OP_LUMA != QOI_OP_RUN,
        QOI_OP_RGB != QOI_OP_RGBA,
{
}

proof fn lemma_be_u32(v: u32)
    by (bit_vector)
    ensures
        (((((v >> 24) & 0xff) as u8) as u32) << 24) | (((((v >> 16) & 0xff) as u8) as u32) << 16) | (((((v
            >> 8) & 0xff) as u8) as u32) << 8) | (((v & 0xff) as u8) as u32) == v,
{
}

/// A run chunk at the front of the bytes gives the previous pixel, as often
/// as the run is long.
proof fn lemma_read_run(d: DecoderState, run: nat, rest: Seq<u8>)
    requires
        1 <= run <= 62,
    ensures
        read_chunk(d, seq![run_byte(run)] + rest) == Some(Chunk { len: 1, px: d.prev, count: run }),
{
    let r1 = (run - 1) as u8;
    lemma_run_bits(r1);
    lemma_tag_bits();
    let bytes = seq![run_byte(run)] + rest;
    assert(bytes[0] == QOI_OP_RUN | r1);
}

/// An index chunk at the front of the bytes gives what the table holds in its
/// slot.
proof fn lemma_read_index(d: DecoderState, slot: int, rest: Seq<u8>)
    requires
        0 <= slot < 64,
    ensures
        read_chunk(d, seq![index_byte(slot)] + rest) == Some(
            Chunk { len: 1, px: d.index[slot], count: 1 },
        ),
{
    lemma_index_bits(slot as u8);
    lemma_tag_bits();
    let bytes = seq![index_byte(slot)] + rest;
    assert(bytes[0] == QOI_OP_INDEX | (slot as u8));
}

/// The chunk that the encoder writes for a pixel it did not find gives that
/// pixel back.
proof fn lemma_read_literal(d: DecoderState, px: Pixel, rest: Seq<u8>)
    ensures
        read_chunk(d, literal_chunk(d.prev, px) + rest) == Some(
            Chunk { len: literal_chunk(d.prev, px).len(), px: px, count: 1 },
        ),
{
    let prev = d.prev;
    let bytes = literal_chunk(prev, px) + rest;
    lemma_tag_bits();
    if px.a == prev.a {
        let vr = px.r.wrapping_sub(prev.r);
        let vg = px.g.wrapping_sub(prev.g);
        let vb = px.b.wrapping_sub(prev.b);
        let vg_r = vr.wrapping_sub(vg);
        let vg_b = vb.wrapping_sub(vg);
        if small_diff(vr) && small_diff(vg) && small_diff(vb) {
            let dr = vr.wrapping_add(2);
            let dg = vg.wrapping_add(2);
            let db = vb.wrapping_add(2);
            lemma_diff_bits(dr, dg, db);
            assert(bytes[0] == diff_byte(vr, vg, vb));
            assert(prev.r.wrapping_add(dr).wrapping_sub(2) == px.r);
            assert(prev.g.wrapping_add(dg).wrapping_sub(2) == px.g);
            assert(prev.b.wrapping_add(db).wrapping_sub(2) == px.b);
        } else if luma_diff(vg, vg_r, vg_b) {
            let g6 = vg.wrapping_add(32);
            let hi = vg_r.wrapping_add(8);
            let lo = vg_b.wrapping_add(8);
            lemma_luma_bits(g6, hi, lo);
            assert(bytes[0] == luma_byte1(vg));
            assert(bytes[1] == luma_byte2(vg_r, vg_b));
            assert(g6.wrapping_sub(32) == vg);
            assert(prev.g.wrapping_add(vg) == px.g);
            assert(vg.wrapping_sub(8).wrapping_add(hi) == vr);
            assert(vg.wrapping_sub(8).wrapping_add(lo) == vb);
            assert(prev.r.wrapping_add(vr) == px.r);
            assert(prev.b.wrapping_add(vb) == px.b);
        } else {
            assert(bytes[0] == QOI_OP_RGB);
            assert(bytes[1] == px.r && bytes[2] == px.g && bytes[3] == px.b);
        }
    } else {
        assert(bytes[0] == QOI_OP_RGBA);
        assert(bytes[1] == px.r && bytes[2] == px.g && bytes[3] == px.b && bytes[4] == px.a);
    }
}

/// Decoding goes on behind a chunk that was read.
proof fn lemma_decode_front(
    d: DecoderState,
    front: Seq<u8>,
    rest: Seq<u8>,
    remaining: nat,
    c: Chunk,
)
    requires
        read_chunk(d, front + rest) == Some(c),
        c.len == front.len(),
        1 <= c.count <= remaining,
    ensures
        decode_pixels(d, front + rest, remaining) == prepend(
            repeat(c.px, c.count),
            decode_pixels(remember(d, c.px), rest, (remaining - c.count) as nat),
        ),
{
    assert((front + rest).skip(c.len as int) =~= rest);
    if c.count == remaining {
        assert(decode_pixels(remember(d, c.px), rest, 0) == Some(Seq::<Pixel>::empty()));
    }
}

/// The encoder's steps, taken from the first pixel on.
pub proof fn lemma_unroll_front(s: EncoderState, pixels: Seq<Pixel>)
    requires
        pixels.len() > 0,
    ensures
        state_after(s, pixels) == state_after(step_state(s, pixels[0]), pixels.skip(1)),
        bytes_after(s, pixels) == step_bytes(s, pixels[0]) + bytes_after(
            step_state(s, pixels[0]),
            pixels.skip(1),
        ),
    decreases pixels.len(),
{
    let s1 = step_state(s, pixels[0]);
    let later = pixels.skip(1);
    let front = pixels.drop_last();
    if pixels.len() == 1 {
        assert(front =~= Seq::<Pixel>::empty());
        assert(later =~= Seq::<Pixel>::empty());
        assert(state_after(s, front) == s);
        assert(bytes_after(s, front) =~= Seq::<u8>::empty());
        assert(state_after(s1, later) == s1);
        assert(bytes_after(s1, later) =~= Seq::<u8>::empty());
        assert(pixels.last() == pixels[0]);
        assert(bytes_after(s, pixels) =~= step_bytes(s, pixels[0]) + bytes_after(s1, later));
    } else {
        lemma_unroll_front(s, front);
        assert(front.skip(1) =~= later.drop_last());
        assert(front[0] == pixels[0]);
        assert(later.last() == pixels.last());
        let mid = state_after(s1, later.drop_last());
        assert(state_after(s, front) == mid);
        assert(state_after(s1, later) == step_state(mid, later.last()));
        assert(bytes_after(s1, later) == bytes_after(s1, later.drop_last()) + step_bytes(
            mid,
            later.last(),
        ));
        assert(bytes_after(s, pixels) == bytes_after(s, front) + step_bytes(mid, pixels.last()));
        assert(bytes_after(s, pixels) =~= step_bytes(s, pixels[0]) + bytes_after(s1, later));
    }
}

/// Everything that the encoder writes from the state `s` on for `pixels`, the
/// last run included.
pub open spec fn encoded_from(s: EncoderState, pixels: Seq<Pixel>) -> Seq<u8> {
    bytes_after(s, pixels) + flush_run(state_after(s, pixels).run)
}

/// From the states `s` and `d` the decoder reads back the pending run and
/// `pixels`, whatever `tail` holds.
pub open spec fn reads_back(s: EncoderState, d: DecoderState, pixels: Seq<Pixel>, tail: Seq<u8>) -> bool {
    decode_pixels(d, encoded_from(s, pixels) + tail, s.run + pixels.len()) == Some(
        repeat(s.prev, s.run) + pixels,
    )
}

/// What is written from `s` on starts with the bytes of the first pixel.
proof fn lemma_encoded_front(s: EncoderState, pixels: Seq<Pixel>)
    requires
        pixels.len() > 0,
    ensures
        encoded_from(s, pixels) == step_bytes(s, pixels[0]) + encoded_from(
            step_state(s, pixels[0]),
            pixels.skip(1),
        ),
{
    lemma_unroll_front(s, pixels);
    let s1 = step_state(s, pixels[0]);
    assert(encoded_from(s, pixels) =~= step_bytes(s, pixels[0]) + encoded_from(s1, pixels.skip(1)));
}

/// The decoder's state once it has read the chunk of a pending run, if there
/// is one.
pub open spec fn after_flush(s: EncoderState, d: DecoderState) -> DecoderState {
    if s.run > 0 {
        remember(d, d.prev)
    } else {
        d
    }
}

/// Remembering the previous pixel once more, as the decoder does after a run
/// chunk, keeps encoder and decoder in step.
proof fn lemma_in_step_after_flush(s: EncoderState, d: DecoderState)
    requires
        in_step(s, d),
    ensures
        in_step(s, remember(d, d.prev)),
        in_step(s, after_flush(s, d)),
{
    let d2 = remember(d, d.prev);
    assert forall|slot: int| 0 <= slot < 64 implies (#[trigger] s.index[slot] == d2.index[slot]
        || pixel_hash(s.index[slot]) != slot) by {
        assert(s.index[slot] == d.index[slot] || pixel_hash(s.index[slot]) != slot);
    }
}

/// A repeat of the previous pixel keeps encoder and decoder in step: the
/// decoder stays as it is while the run grows, and remembers the previous
/// pixel once more when the run is full and written out.
proof fn lemma_in_step_after_repeat(s: EncoderState, d: DecoderState)
    requires
        in_step(s, d),
    ensures
        s.run + 1 == 62 ==> in_step(step_state(s, s.prev), remember(d, d.prev)),
        s.run + 1 != 62 ==> in_step(step_state(s, s.prev), d),
{
    reveal(step_state);
    lemma_in_step_after_flush(s, d);
    let s1 = step_state(s, s.prev);
    let d2 = remember(d, d.prev);
    assert forall|slot: int| 0 <= slot < 64 implies (#[trigger] s1.index[slot] == d2.index[slot]
        || pixel_hash(s1.index[slot]) != slot) by {
        assert(s.index[slot] == d2.index[slot] || pixel_hash(s.index[slot]) != slot);
    }
    assert forall|slot: int| 0 <= slot < 64 implies (#[trigger] s1.index[slot] == d.index[slot]
        || pixel_hash(s1.index[slot]) != slot) by {
        assert(s.index[slot] == d.index[slot] || pixel_hash(s.index[slot]) != slot);
    }
}

/// A pixel that differs from the previous one keeps encoder and decoder in
/// step.
proof fn lemma_in_step_after_pixel(s: EncoderState, d: DecoderState, px: Pixel)
    requires
        in_step(s, d),
        px != s.prev,
    ensures
        in_step(step_state(s, px), remember(d, px)),
{
    reveal(step_state);
    let s2 = step_state(s, px);
    let d2 = remember(d, px);
    let home = pixel_hash(px);
    assert forall|slot: int| 0 <= slot < 64 implies (#[trigger] s2.index[slot] == d2.index[slot]
        || pixel_hash(s2.index[slot]) != slot) by {
        assert(s.index[slot] == d.index[slot] || pixel_hash(s.index[slot]) != slot);
    }
    assert(s2.index[home] == px);
}

/// The chunk of a pixel that differs from the previous one: an index chunk
/// where the table holds the pixel, else one of the others.
pub open spec fn pixel_chunk(s: EncoderState, px: Pixel) -> Seq<u8> {
    if s.index[pixel_hash(px)] == px {
        seq![index_byte(pixel_hash(px))]
    } else {
        literal_chunk(s.prev, px)
    }
}

/// The decoder reads back the chunk of a pixel that differs from the previous
/// one.
proof fn lemma_read_pixel_chunk(s: EncoderState, d: DecoderState, px: Pixel, rest: Seq<u8>)
    requires
        in_step(s, d),
    ensures
        read_chunk(d, pixel_chunk(s, px) + rest) == Some(
            Chunk { len: pixel_chunk(s, px).len(), px: px, count: 1 },
        ),
{
    let home = pixel_hash(px);
    if s.index[home] == px {
        lemma_read_index(d, home, rest);
        assert(s.index[home] == d.index[home] || pixel_hash(s.index[home]) != home);
    } else {
        lemma_read_literal(d, px, rest);
    }
}

/// No pixels are left: the decoder reads back the pending run.
proof fn lemma_reads_back_nothing(s: EncoderState, d: DecoderState, tail: Seq<u8>)
    requires
        in_step(s, d),
    ensures
        reads_back(s, d, Seq::<Pixel>::empty(), tail),
{
    let none = Seq::<Pixel>::empty();
    assert(encoded_from(s, none) + tail =~= flush_run(s.run) + tail);
    if s.run == 0 {
        assert(repeat(s.prev, s.run) + none =~= none);
    } else {
        lemma_read_run(d, s.run, tail);
        lemma_decode_front(
            d,
            seq![run_byte(s.run)],
            tail,
            s.run,
            Chunk { len: 1, px: d.prev, count: s.run },
        );
        assert(repeat(s.prev, s.run) + none =~= repeat(d.prev, s.run) + none);
    }
}

/// The first pixel repeats the previous one: it joins the run, and a run of
/// 62 is written out.
proof fn lemma_reads_back_repeat(s: EncoderState, d: DecoderState, pixels: Seq<Pixel>, tail: Seq<u8>)
    requires
        in_step(s, d),
        pixels.len() > 0,
        pixels[0] == s.prev,
        s.run + 1 == 62 ==> reads_back(
            step_state(s, pixels[0]),
            remember(d, d.prev),
            pixels.skip(1),
            tail,
        ),
        s.run + 1 != 62 ==> reads_back(step_state(s, pixels[0]), d, pixels.skip(1), tail),
    ensures
        reads_back(s, d, pixels, tail),
{
    reveal(step_state);
    reveal(step_bytes);
    let px = pixels[0];
    let later = pixels.skip(1);
    let s1 = step_state(s, px);
    lemma_encoded_front(s, pixels);
    let rest = encoded_from(s1, later) + tail;
    assert(encoded_from(s, pixels) + tail =~= step_bytes(s, px) + rest);
    if s.run + 1 == 62 {
        lemma_read_run(d, 62, rest);
        lemma_decode_front(
            d,
            seq![run_byte(62)],
            rest,
            s.run + pixels.len(),
            Chunk { len: 1, px: d.prev, count: 62 },
        );
        assert(repeat(s.prev, s.run) + pixels =~= repeat(d.prev, 62) + (repeat(s1.prev, s1.run)
            + later));
    } else {
        assert(step_bytes(s, px) + rest =~= rest);
        assert(repeat(s.prev, s.run) + pixels =~= repeat(s1.prev, s1.run) + later);
    }
}

/// The first pixel differs from the previous one: the pending run is written
/// out, then the pixel's own chunk.
proof fn lemma_reads_back_change(s: EncoderState, d: DecoderState, pixels: Seq<Pixel>, tail: Seq<u8>)
    requires
        in_step(s, d),
        pixels.len() > 0,
        pixels[0] != s.prev,
        reads_back(
            step_state(s, pixels[0]),
            remember(after_flush(s, d), pixels[0]),
            pixels.skip(1),
            tail,
        ),
    ensures
        reads_back(s, d, pixels, tail),
{
    let px = pixels[0];
    let later = pixels.skip(1);
    let s1 = step_state(s, px);
    let d1 = after_flush(s, d);
    let own = pixel_chunk(s, px);
    lemma_encoded_front(s, pixels);
    let rest = encoded_from(s1, later) + tail;
    assert(step_bytes(s, px) == flush_run(s.run) + own && s1.prev == px && s1.run == 0) by {
        reveal(step_state);
        reveal(step_bytes);
    }
    assert(encoded_from(s, pixels) + tail =~= flush_run(s.run) + (own + rest));
    lemma_in_step_after_flush(s, d);
    lemma_read_pixel_chunk(s, d1, px, rest);
    lemma_decode_front(d1, own, rest, pixels.len(), Chunk { len: own.len(), px: px, count: 1 });
    assert(repeat(px, 1) + (repeat(s1.prev, s1.run) + later) =~= pixels);
    assert(decode_pixels(d1, own + rest, pixels.len()) == Some(pixels));
    if s.run > 0 {
        lemma_read_run(d, s.run, own + rest);
        lemma_decode_front(
            d,
            seq![run_byte(s.run)],
            own + rest,
            s.run + pixels.len(),
            Chunk { len: 1, px: d.prev, count: s.run },
        );
        assert(flush_run(s.run) + (own + rest) =~= seq![run_byte(s.run)] + (own + rest));
    } else {
        assert(flush_run(s.run) + (own + rest) =~= own + rest);
        assert(repeat(s.prev, s.run) + pixels =~= pixels);
    }
}

/// From any point at which encoder and decoder are in step, the decoder reads
/// back the pixels of the pending run and all pixels that the encoder goes on
/// to take, whatever follows the chunks.
pub proof fn lemma_decode_encoded(s: EncoderState, d: DecoderState, pixels: Seq<Pixel>, tail: Seq<u8>)
    requires
        in_step(s, d),
    ensures
        reads_back(s, d, pixels, tail),
    decreases pixels.len(),
{
    if pixels.len() == 0 {
        assert(pixels =~= Seq::<Pixel>::empty());
        lemma_reads_back_nothing(s, d, tail);
    } else {
        let px = pixels[0];
        let later = pixels.skip(1);
        let s1 = step_state(s, px);
        if px == s.prev {
            lemma_in_step_after_repeat(s, d);
            if s.run + 1 == 62 {
                lemma_decode_encoded(s1, remember(d, d.prev), later, tail);
            } else {
                lemma_decode_encoded(s1, d, later, tail);
            }
            lemma_reads_back_repeat(s, d, pixels, tail);
        } else {
            let d1 = after_flush(s, d);
            lemma_in_step_after_flush(s, d);
            lemma_in_step_after_pixel(s, d1, px);
            lemma_decode_encoded(s1, remember(d1, px), later, tail);
            lemma_reads_back_change(s, d, pixels, tail);
        }
    }
}

/// Packing the pixels of packed data gives the data back.
pub proof fn lemma_pack_pixels(data: Seq<u8>, has_alpha: bool)
    requires
        data.len() % channel_count(has_alpha) as nat == 0,
    ensures
        pack(pixels_of(data, has_alpha), has_alpha) == data,
{
    let pixels = pixels_of(data, has_alpha);
    if has_alpha {
        assert(pixels.len() * 4 == data.len());
        assert forall|j: int| 0 <= j < data.len() implies pack(pixels, true)[j] == data[j] by {
            assert(pixels[j / 4] == pixel_at(data, true, j / 4));
        }
        assert(pack(pixels, true) =~= data);
    } else {
        assert(pixels.len() * 3 == data.len());
        assert forall|j: int| 0 <= j < data.len() implies pack(pixels, false)[j] == data[j] by {
            assert(pixels[j / 3] == pixel_at(data, false, j / 3));
        }
        assert(pack(pixels, false) =~= data);
    }
}

/// Round trip: a decoder reads out of the encoder's stream the width, the
/// height, the channel count, the color characteristics and the very pixels
/// that went in.
pub proof fn lemma_round_trip(width: u32, height: u32, has_alpha: bool, linear: bool, data: Seq<u8>)
    requires
        data.len() == width * height * channel_count(has_alpha),
    ensures
        qoi_decode(qoi_stream(width, height, has_alpha, linear, data)) == Some(
            QoiImage { width, height, has_alpha, linear, data },
        ),
{
    reveal(qoi_decode);
    let pixels = pixels_of(data, has_alpha);
    let header = qoi_header(width, height, has_alpha, linear);
    let body = qoi_body(pixels);
    let bytes = qoi_stream(width, height, has_alpha, linear, data);
    let area: int = width * height;
    assert(has_alpha ==> data.len() == area * 4);
    assert(!has_alpha ==> data.len() == area * 3);
    assert(pixels.len() == area);
    assert(bytes.subrange(14, bytes.len() - 8) =~= body);
    lemma_be_u32(QOI_MAGIC);
    lemma_be_u32(width);
    lemma_be_u32(height);
    assert(bytes[0] == header[0] && bytes[1] == header[1] && bytes[2] == header[2] && bytes[3]
        == header[3]);
    assert(bytes[4] == header[4] && bytes[5] == header[5] && bytes[6] == header[6] && bytes[7]
        == header[7]);
    assert(bytes[8] == header[8] && bytes[9] == header[9] && bytes[10] == header[10] && bytes[11]
        == header[11]);
    assert(bytes[12] == header[12] && bytes[13] == header[13]);
    assert(be_u32(bytes[0], bytes[1], bytes[2], bytes[3]) == QOI_MAGIC);
    assert(be_u32(bytes[4], bytes[5], bytes[6], bytes[7]) == width);
    assert(be_u32(bytes[8], bytes[9], bytes[10], bytes[11]) == height);
    assert(in_step(initial_state(), decoder_start()));
    lemma_decode_encoded(initial_state(), decoder_start(), pixels, Seq::<u8>::empty());
    assert(encoded_from(initial_state(), pixels) + Seq::<u8>::empty() =~= body);
    assert(repeat(start_pixel(), 0) + pixels =~= pixels);
    lemma_pack_pixels(data, has_alpha);
}

} // verus!
