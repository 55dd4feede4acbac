//! The QOI byte stream, stated as a function of the image.
//!
//! The encoder is a small state machine over the pixels: it remembers the
//! previous pixel, a 64-slot table of pixels seen, and the length of the run of
//! repeats that has not been written yet. `step_state` and `step_bytes` say what
//! one pixel does to it; `qoi_stream` is the whole stream.
use crate::constants::{
    QOI_MAGIC, QOI_OP_DIFF, QOI_OP_INDEX, QOI_OP_LUMA, QOI_OP_RGB, QOI_OP_RGBA, QOI_OP_RUN,
};
use crate::writer::{u32_be_bytes, u64_be_bytes};
use vstd::prelude::*;

verus! {

/// One pixel, alpha last.
#[derive(Copy, Clone, Debug, PartialEq, Eq, Structural)]
pub struct Pixel {
    pub r: u8,
    pub g: u8,
    pub b: u8,
    pub a: u8,
}

/// The slot of the index table that a pixel belongs to.
pub open spec fn pixel_hash(p: Pixel) -> int {
    (p.r * 3 + p.g * 5 + p.b * 7 + p.a * 11) % 64
}

/// The pixel that precedes the first one: opaque black.
pub open spec fn start_pixel() -> Pixel {
    Pixel { r: 0, g: 0, b: 0, a: 255 }
}

/// What every slot of the index table holds at the start.
pub open spec fn zero_pixel() -> Pixel {
    Pixel { r: 0, g: 0, b: 0, a: 0 }
}

/// A channel difference, taken modulo 256, that lies in `-2 ..= 1`.
pub open spec fn small_diff(v: u8) -> bool {
    v < 2 || v > 253
}

/// The green difference lies in `-32 ..= 31` and the red and blue differences,
/// relative to it, in `-8 ..= 7`.
pub open spec fn luma_diff(vg: u8, vg_r: u8, vg_b: u8) -> bool {
    (vg_r > 247 || vg_r < 8) && (vg > 223 || vg < 32) && (vg_b > 247 || vg_b < 8)
}

/// The byte of a small-difference chunk.
pub open spec fn diff_byte(vr: u8, vg: u8, vb: u8) -> u8 {
    QOI_OP_DIFF | (vr.wrapping_add(2) << 4) | (vg.wrapping_add(2) << 2) | vb.wrapping_add(2)
}

/// The first byte of a luma chunk.
pub open spec fn luma_byte1(vg: u8) -> u8 {
    QOI_OP_LUMA | vg.wrapping_add(32)
}

/// The second byte of a luma chunk.
pub open spec fn luma_byte2(vg_r: u8, vg_b: u8) -> u8 {
    (vg_r.wrapping_add(8) << 4) | vg_b.wrapping_add(8)
}

/// The byte of an index chunk for slot `slot`.
pub open spec fn index_byte(slot: int) -> u8 {
    QOI_OP_INDEX | (slot as u8)
}

/// The byte of a run chunk for a run of `run` pixels, `1 <= run <= 62`.
pub open spec fn run_byte(run: nat) -> u8 {
    QOI_OP_RUN | ((run - 1) as u8)
}

/// The chunk for a pixel that differs from the previous one and is not in the
/// index table: the shortest of DIFF, LUMA, RGB and RGBA that can hold it.
pub open spec fn literal_chunk(prev: Pixel, px: Pixel) -> Seq<u8> {
    if px.a == prev.a {
        let vr = px.r.wrapping_sub(prev.r);
        let vg = px.g.wrapping_sub(prev.g);
        let vb = px.b.wrapping_sub(prev.b);
        let vg_r = vr.wrapping_sub(vg);
        let vg_b = vb.wrapping_sub(vg);
        if small_diff(vr) && small_diff(vg) && small_diff(vb) {
            seq![diff_byte(vr, vg, vb)]
        } else if luma_diff(vg, vg_r, vg_b) {
            seq![luma_byte1(vg), luma_byte2(vg_r, vg_b)]
        } else {
            seq![QOI_OP_RGB, px.r, px.g, px.b]
        }
    } else {
        seq![QOI_OP_RGBA, px.r, px.g, px.b, px.a]
    }
}

/// The chunk that writes out a pending run, if there is one.
pub open spec fn flush_run(run: nat) -> Seq<u8> {
    if run > 0 {
        seq![run_byte(run)]
    } else {
        Seq::empty()
    }
}

/// What the encoder remembers between two pixels.
pub struct EncoderState {
    /// The pixel seen last.
    pub prev: Pixel,
    /// The index table, 64 slots.
    pub index: Seq<Pixel>,
    /// How many repeats of `prev` have been seen and not written yet.
    pub run: nat,
}

/// The state before the first pixel.
pub open spec fn initial_state() -> EncoderState {
    EncoderState { prev: start_pixel(), index: Seq::new(64, |i: int| zero_pixel()), run: 0 }
}

/// The table has its 64 slots and the pending run is less than a full one.
pub open spec fn state_ok(s: EncoderState) -> bool {
    s.index.len() == 64 && s.run < 62
}

/// The state after the pixel `px`.
#[verifier::opaque]
pub open spec fn step_state(s: EncoderState, px: Pixel) -> EncoderState {
    if px == s.prev {
        EncoderState {
            prev: s.prev,
            index: s.index,
            run: if s.run + 1 == 62 {
                0
            } else {
                s.run + 1
            },
        }
    } else {
        let slot = pixel_hash(px);
        EncoderState {
            prev: px,
            index: if s.index[slot] == px {
                s.index
            } else {
                s.index.update(slot, px)
            },
            run: 0,
        }
    }
}

/// The bytes that the pixel `px` makes the encoder write.
#[verifier::opaque]
pub open spec fn step_bytes(s: EncoderState, px: Pixel) -> Seq<u8> {
    if px == s.prev {
        if s.run + 1 == 62 {
            seq![run_byte(62)]
        } else {
            Seq::empty()
        }
    } else {
        let slot = pixel_hash(px);
        flush_run(s.run) + if s.index[slot] == px {
            seq![index_byte(slot)]
        } else {
            literal_chunk(s.prev, px)
        }
    }
}

/// The state after all of `pixels`, starting from `s`.
pub open spec fn state_after(s: EncoderState, pixels: Seq<Pixel>) -> EncoderState
    decreases pixels.len(),
{
    if pixels.len() == 0 {
        s
    } else {
        step_state(state_after(s, pixels.drop_last()), pixels.last())
    }
}

/// The bytes written for all of `pixels`, starting from `s`. A run that is
/// still pending at the end is not in them.
pub open spec fn bytes_after(s: EncoderState, pixels: Seq<Pixel>) -> Seq<u8>
    decreases pixels.len(),
{
    if pixels.len() == 0 {
        Seq::empty()
    } else {
        bytes_after(s, pixels.drop_last()) + step_bytes(
            state_after(s, pixels.drop_last()),
            pixels.last(),
        )
    }
}

/// Pixel `i` of packed channel data. Data without alpha is opaque.
pub open spec fn pixel_at(data: Seq<u8>, has_alpha: bool, i: int) -> Pixel {
    if has_alpha {
        Pixel { r: data[4 * i], g: data[4 * i + 1], b: data[4 * i + 2], a: data[4 * i + 3] }
    } else {
        Pixel { r: data[3 * i], g: data[3 * i + 1], b: data[3 * i + 2], a: 255 }
    }
}

/// The number of channels of packed data with or without alpha.
pub open spec fn channel_count(has_alpha: bool) -> int {
    if has_alpha {
        4
    } else {
        3
    }
}

/// The pixels of packed channel data.
pub open spec fn pixels_of(data: Seq<u8>, has_alpha: bool) -> Seq<Pixel> {
    if has_alpha {
        Seq::new(data.len() / 4, |i: int| pixel_at(data, true, i))
    } else {
        Seq::new(data.len() / 3, |i: int| pixel_at(data, false, i))
    }
}

/// The 14 bytes of the header.
pub open spec fn qoi_header(width: u32, height: u32, has_alpha: bool, linear: bool) -> Seq<u8> {
    u32_be_bytes(QOI_MAGIC) + u32_be_bytes(width) + u32_be_bytes(height) + seq![
        if has_alpha {
            4u8
        } else {
            3u8
        },
        if linear {
            1u8
        } else {
            0u8
        },
    ]
}

/// The 8 bytes that end a stream.
pub open spec fn qoi_trailer() -> Seq<u8> {
    u64_be_bytes(1)
}

/// The chunks for all of `pixels`, the last run included.
pub open spec fn qoi_body(pixels: Seq<Pixel>) -> Seq<u8> {
    bytes_after(initial_state(), pixels) + flush_run(state_after(initial_state(), pixels).run)
}

/// The whole stream for an image whose packed channel data is `data`.
pub open spec fn qoi_stream(
    width: u32,
    height: u32,
    has_alpha: bool,
    linear: bool,
    data: Seq<u8>,
) -> Seq<u8> {
    qoi_header(width, height, has_alpha, linear) + qoi_body(pixels_of(data, has_alpha))
        + qoi_trailer()
}

/// One byte if a run is pending, else none.
pub open spec fn pending_len(run: nat) -> nat {
    if run > 0 {
        1
    } else {
        0
    }
}

/// No pixel of `pixels` has an alpha other than 255.
pub open spec fn all_opaque(pixels: Seq<Pixel>) -> bool {
    forall|i: int| 0 <= i < pixels.len() ==> (#[trigger] pixels[i]).a == 255
}

/// What a step leaves behind: a repeat changes nothing but the run; any other
/// pixel becomes the previous one, stands in its slot of the table, and ends
/// the run.
pub proof fn lemma_step_state(s: EncoderState, px: Pixel)
    requires
        state_ok(s),
    ensures
        state_ok(step_state(s, px)),
        step_state(s, px).prev == px,
        px == s.prev ==> step_state(s, px).index == s.index,
        px != s.prev ==> step_state(s, px).index[pixel_hash(px)] == px,
        px != s.prev ==> step_state(s, px).run == 0,
        px != s.prev ==> forall|slot: int|
            0 <= slot < 64 && slot != pixel_hash(px) ==> step_state(s, px).index[slot]
                == s.index[slot],
{
    reveal(step_state);
}

/// One more pixel is one more step.
pub proof fn lemma_take_step(s: EncoderState, pixels: Seq<Pixel>, i: int)
    requires
        0 <= i < pixels.len(),
    ensures
        state_after(s, pixels.take(i + 1)) == step_state(state_after(s, pixels.take(i)), pixels[i]),
        bytes_after(s, pixels.take(i + 1)) == bytes_after(s, pixels.take(i)) + step_bytes(
            state_after(s, pixels.take(i)),
            pixels[i],
        ),
{
    assert(pixels.take(i + 1).drop_last() =~= pixels.take(i));
}

/// A step keeps the table at 64 slots and the run below 62.
pub proof fn lemma_state_ok(s: EncoderState, pixels: Seq<Pixel>)
    requires
        state_ok(s),
    ensures
        state_ok(state_after(s, pixels)),
    decreases pixels.len(),
{
    if pixels.len() > 0 {
        lemma_state_ok(s, pixels.drop_last());
        lemma_step_state(state_after(s, pixels.drop_last()), pixels.last());
    }
}

/// A prefix of the pixels never takes more bytes than all of them.
pub proof fn lemma_prefix_len(s: EncoderState, pixels: Seq<Pixel>, i: int)
    requires
        0 <= i <= pixels.len(),
    ensures
        bytes_after(s, pixels.take(i)).len() <= bytes_after(s, pixels).len(),
    decreases pixels.len() - i,
{
    if i < pixels.len() {
        lemma_take_step(s, pixels, i);
        lemma_prefix_len(s, pixels, i + 1);
    } else {
        assert(pixels.take(i) =~= pixels);
    }
}

/// The length of each chunk.
pub proof fn lemma_chunk_lengths(s: EncoderState, px: Pixel)
    ensures
        literal_chunk(s.prev, px).len() <= 5,
        px.a == s.prev.a ==> literal_chunk(s.prev, px).len() <= 4,
        step_bytes(s, px).len() <= 5 + pending_len(s.run),
        step_bytes(s, px).len() + pending_len(step_state(s, px).run) <= 5 + pending_len(s.run),
        px.a == s.prev.a ==> step_bytes(s, px).len() + pending_len(step_state(s, px).run) <= 4
            + pending_len(s.run),
        step_state(s, px).prev == px,
{
    reveal(step_state);
    reveal(step_bytes);
}

/// What has been written, and what a pending run will take, is at most `cap`
/// bytes a pixel: five in general, four where every pixel is opaque.
pub proof fn lemma_bytes_bound(pixels: Seq<Pixel>, cap: nat)
    requires
        cap == 5 || (cap == 4 && all_opaque(pixels)),
    ensures
        bytes_after(initial_state(), pixels).len() + pending_len(
            state_after(initial_state(), pixels).run,
        ) <= cap * pixels.len(),
        cap == 4 ==> state_after(initial_state(), pixels).prev.a == 255,
    decreases pixels.len(),
{
    if pixels.len() > 0 {
        let front = pixels.drop_last();
        assert(cap == 4 ==> all_opaque(front)) by {
            if cap == 4 {
                assert forall|i: int| 0 <= i < front.len() implies (#[trigger] front[i]).a == 255 by {
                    assert(front[i] == pixels[i]);
                }
            }
        }
        lemma_bytes_bound(front, cap);
        let s = state_after(initial_state(), front);
        lemma_chunk_lengths(s, pixels.last());
        assert(cap == 4 ==> pixels.last().a == 255) by {
            if cap == 4 {
                assert(pixels[pixels.len() - 1].a == 255);
            }
        }
        assert(cap * pixels.len() == cap * front.len() + cap) by (nonlinear_arith)
            requires
                pixels.len() == front.len() + 1,
        ;
    }
}

/// The stream is never longer than five bytes a pixel for data with alpha,
/// four for data without, and the 22 bytes of header and end marker.
pub proof fn lemma_stream_bound(
    width: u32,
    height: u32,
    has_alpha: bool,
    linear: bool,
    data: Seq<u8>,
)
    ensures
        qoi_stream(width, height, has_alpha, linear, data).len() <= (channel_count(has_alpha) + 1)
            * pixels_of(data, has_alpha).len() + 22,
{
    let pixels = pixels_of(data, has_alpha);
    if has_alpha {
        lemma_bytes_bound(pixels, 5);
    } else {
        lemma_bytes_bound(pixels, 4);
    }
}

proof fn lemma_small_be_bytes(v: u32)
    by (bit_vector)
    requires
        v < 256,
    ensures
        ((v >> 24) & 0xff) as u8 == 0u8,
        ((v >> 16) & 0xff) as u8 == 0u8,
        ((v >> 8) & 0xff) as u8 == 0u8,
        (v & 0xff) as u8 == v,
{
}

/// The header spells `qoif`, and the end marker is seven zero bytes and a
/// one.
pub proof fn lemma_fixed_bytes()
    ensures
        u32_be_bytes(QOI_MAGIC) == seq![0x71u8, 0x6fu8, 0x69u8, 0x66u8],
        qoi_trailer() == seq![0u8, 0u8, 0u8, 0u8, 0u8, 0u8, 0u8, 1u8],
{
    assert(((QOI_MAGIC >> 24) & 0xff) as u8 == 0x71u8 && ((QOI_MAGIC >> 16) & 0xff) as u8 == 0x6fu8
        && ((QOI_MAGIC >> 8) & 0xff) as u8 == 0x69u8 && (QOI_MAGIC & 0xff) as u8 == 0x66u8)
        by (bit_vector);
    assert(((1u64 >> 32) & 0xffff_ffff) as u32 == 0u32 && (1u64 & 0xffff_ffff) as u32 == 1u32)
        by (bit_vector);
    lemma_small_be_bytes(0);
    lemma_small_be_bytes(1);
    assert(u32_be_bytes(QOI_MAGIC) =~= seq![0x71u8, 0x6fu8, 0x69u8, 0x66u8]);
    assert(u32_be_bytes(0) =~= seq![0u8, 0u8, 0u8, 0u8]);
    assert(u32_be_bytes(1) =~= seq![0u8, 0u8, 0u8, 1u8]);
    assert(qoi_trailer() =~= seq![0u8, 0u8, 0u8, 0u8, 0u8, 0u8, 0u8, 1u8]);
}

/// The first 14 bytes of a stream are the header: they depend on the width,
/// the height, the channel count and the color characteristics, and on
/// nothing else.
pub proof fn lemma_stream_header(
    width: u32,
    height: u32,
    has_alpha: bool,
    linear: bool,
    data: Seq<u8>,
)
    ensures
        qoi_stream(width, height, has_alpha, linear, data).len() >= 22,
        qoi_stream(width, height, has_alpha, linear, data).subrange(0, 14) == qoi_header(
            width,
            height,
            has_alpha,
            linear,
        ),
        qoi_header(width, height, has_alpha, linear).subrange(0, 4) == seq![
            0x71u8,
            0x6fu8,
            0x69u8,
            0x66u8,
        ],
{
    lemma_fixed_bytes();
    let header = qoi_header(width, height, has_alpha, linear);
    let stream = qoi_stream(width, height, has_alpha, linear, data);
    assert(stream.subrange(0, 14) =~= header);
    assert(header.subrange(0, 4) =~= u32_be_bytes(QOI_MAGIC));
}

/// The last 8 bytes of a stream are seven zero bytes and a one.
pub proof fn lemma_stream_trailer(
    width: u32,
    height: u32,
    has_alpha: bool,
    linear: bool,
    data: Seq<u8>,
)
    ensures
        ({
            let stream = qoi_stream(width, height, has_alpha, linear, data);
            stream.subrange(stream.len() - 8, stream.len() as int) == seq![
                0u8,
                0u8,
                0u8,
                0u8,
                0u8,
                0u8,
                0u8,
                1u8,
            ]
        }),
{
    lemma_fixed_bytes();
    let stream = qoi_stream(width, height, has_alpha, linear, data);
    assert(stream.subrange(stream.len() - 8, stream.len() as int) =~= qoi_trailer());
}

/// `n` pixels, each the pixel that precedes the first one.
pub open spec fn uniform_image(n: nat) -> Seq<Pixel> {
    Seq::new(n, |i: int| start_pixel())
}

/// An image of `n` opaque black pixels is written as runs only: a full run
/// for every 62 pixels and one run for what is left, which makes `n / 62`
/// rounded up chunks of one byte.
pub proof fn lemma_uniform_image(n: nat)
    ensures
        bytes_after(initial_state(), uniform_image(n)) == Seq::new(n / 62, |i: int| run_byte(62)),
        state_after(initial_state(), uniform_image(n)) == (EncoderState {
            prev: start_pixel(),
            index: initial_state().index,
            run: n % 62,
        }),
        qoi_body(uniform_image(n)) == Seq::new(n / 62, |i: int| run_byte(62)) + flush_run(n % 62),
        qoi_body(uniform_image(n)).len() == (n + 61) / 62,
    decreases n,
{
    let start = initial_state();
    if n == 0 {
        assert(bytes_after(start, uniform_image(0)) =~= Seq::new(0, |i: int| run_byte(62)));
    } else {
        let m: nat = (n - 1) as nat;
        lemma_uniform_image(m);
        assert(uniform_image(n).drop_last() =~= uniform_image(m));
        assert(uniform_image(n).last() == start_pixel());
        reveal(step_state);
        reveal(step_bytes);
        let before = state_after(start, uniform_image(m));
        assert(before.run == m % 62);
        if m % 62 + 1 == 62 {
            assert(n % 62 == 0 && n / 62 == m / 62 + 1);
            assert(bytes_after(start, uniform_image(n)) =~= Seq::new(
                n / 62,
                |i: int| run_byte(62),
            ));
        } else {
            assert(n % 62 == m % 62 + 1 && n / 62 == m / 62);
            assert(bytes_after(start, uniform_image(n)) =~= Seq::new(
                n / 62,
                |i: int| run_byte(62),
            ));
        }
    }
}

} // verus!
