//! The QOI encoder: packed RGB or RGBA bytes in, one complete stream out.
use crate::colorspace::{ColorCharacteristics, ColorSpace, EncoderOptions};
use crate::constants::{
    QOI_HEADER_SIZE, QOI_MAGIC, QOI_OP_DIFF, QOI_OP_INDEX, QOI_OP_LUMA, QOI_OP_RGB, QOI_OP_RGBA,
    QOI_OP_RUN, QOI_PADDING,
};
use crate::decoder::{lemma_round_trip, qoi_decode, QoiImage};
use crate::errors::{supported_colorspaces, QoiEncodeErrors, SUPPORTED_COLORSPACES};
use crate::qoi::{
    bytes_after, channel_count, flush_run, initial_state, lemma_chunk_lengths, lemma_prefix_len,
    lemma_stream_bound, lemma_take_step, literal_chunk, pending_len, pixel_at, pixel_hash,
    pixels_of, qoi_body, qoi_header, qoi_stream, qoi_trailer, state_after, step_bytes, step_state,
    EncoderState, Pixel,
};
use crate::writer::ByteWriter;
use vstd::prelude::*;

verus! {

/// Reads pixel `i` of packed channel data.
fn read_pixel(data: &[u8], has_alpha: bool, i: usize) -> (px: Pixel)
    requires
        has_alpha ==> 4 * i + 4 <= data@.len(),
        !has_alpha ==> 3 * i + 3 <= data@.len(),
    ensures
        px == pixel_at(data@, has_alpha, i as int),
{
    let len: usize = data.len();
    assert(has_alpha ==> 4 * i + 4 <= len);
    assert(!has_alpha ==> 3 * i + 3 <= len);
    if has_alpha {
        Pixel { r: data[4 * i], g: data[4 * i + 1], b: data[4 * i + 2], a: data[4 * i + 3] }
    } else {
        Pixel { r: data[3 * i], g: data[3 * i + 1], b: data[3 * i + 2], a: 255 }
    }
}

/// Writes the chunk for a pixel that is neither a repeat nor in the index
/// table.
fn write_literal(stream: &mut ByteWriter, buf: &mut [u8], prev: Pixel, px: Pixel)
    requires
        old(stream).pos() + 5 <= old(buf)@.len(),
    ensures
        final(buf)@.len() == old(buf)@.len(),
        final(stream).pos() == old(stream).pos() + literal_chunk(prev, px).len(),
        final(stream).written(final(buf)@) == old(stream).written(old(buf)@) + literal_chunk(
            prev,
            px,
        ),
        forall|j: int|
            final(stream).pos() <= j < old(buf)@.len() ==> final(buf)@[j] == old(buf)@[j],
{
    let ghost before = stream.written(buf@);
    if px.a == prev.a {
        let vr: u8 = px.r.wrapping_sub(prev.r);
        let vg: u8 = px.g.wrapping_sub(prev.g);
        let vb: u8 = px.b.wrapping_sub(prev.b);
        let vg_r: u8 = vr.wrapping_sub(vg);
        let vg_b: u8 = vb.wrapping_sub(vg);
        if (vr < 2 || vr > 253) && (vg < 2 || vg > 253) && (vb < 2 || vb > 253) {
            stream.write_u8(
                buf,
                QOI_OP_DIFF | (vr.wrapping_add(2) << 4) | (vg.wrapping_add(2) << 2) | vb.wrapping_add(
                    2,
                ),
            );
        } else if (vg_r > 247 || vg_r < 8) && (vg > 223 || vg < 32) && (vg_b > 247 || vg_b < 8) {
            stream.write_u8(buf, QOI_OP_LUMA | vg.wrapping_add(32));
            stream.write_u8(buf, (vg_r.wrapping_add(8) << 4) | vg_b.wrapping_add(8));
        } else {
            stream.write_u8(buf, QOI_OP_RGB);
            stream.write_u8(buf, px.r);
            stream.write_u8(buf, px.g);
            stream.write_u8(buf, px.b);
        }
    } else {
        stream.write_u8(buf, QOI_OP_RGBA);
        stream.write_u8(buf, px.r);
        stream.write_u8(buf, px.g);
        stream.write_u8(buf, px.b);
        stream.write_u8(buf, px.a);
    }
    assert(stream.written(buf@) =~= before + literal_chunk(prev, px));
}

/// Takes one pixel: counts it into the run, or writes the pending run and
/// the pixel's own chunk.
fn encode_pixel(
    stream: &mut ByteWriter,
    buf: &mut [u8],
    index: &mut [Pixel; 64],
    prev: Pixel,
    run: &mut u8,
    px: Pixel,
)
    requires
        *old(run) < 62,
        old(stream).pos() + 5 + pending_len(*old(run) as nat) <= old(buf)@.len(),
    ensures
        final(buf)@.len() == old(buf)@.len(),
        ({
            let s = EncoderState { prev: prev, index: old(index)@, run: *old(run) as nat };
            &&& final(index)@ == step_state(s, px).index
            &&& *final(run) == step_state(s, px).run
            &&& *final(run) < 62
            &&& final(stream).pos() == old(stream).pos() + step_bytes(s, px).len()
            &&& final(stream).written(final(buf)@) == old(stream).written(old(buf)@) + step_bytes(
                s,
                px,
            )
        }),
        forall|j: int|
            final(stream).pos() <= j < old(buf)@.len() ==> final(buf)@[j] == old(buf)@[j],
{
    let ghost s = EncoderState { prev: prev, index: index@, run: *run as nat };
    let ghost before = stream.written(buf@);
    proof {
        reveal(step_state);
        reveal(step_bytes);
    }
    if px == prev {
        *run = *run + 1;
        if *run == 62 {
            stream.write_u8(buf, QOI_OP_RUN | (*run - 1));
            *run = 0;
        }
        assert(stream.written(buf@) =~= before + step_bytes(s, px));
    } else {
        if *run > 0 {
            stream.write_u8(buf, QOI_OP_RUN | (*run - 1));
            *run = 0;
        }
        let index_pos: usize = (px.r as usize * 3 + px.g as usize * 5 + px.b as usize * 7
            + px.a as usize * 11) % 64;
        assert(index_pos == pixel_hash(px));
        if index[index_pos] == px {
            stream.write_u8(buf, QOI_OP_INDEX | (index_pos as u8));
        } else {
            index[index_pos] = px;
            write_literal(stream, buf, prev, px);
        }
        assert(stream.written(buf@) =~= before + step_bytes(s, px));
    }
}

/// Encodes an image, given as packed RGB or RGBA bytes, as a QOI stream.
pub struct QoiEncoder<'a> {
    pixel_data: &'a [u8],
    options: EncoderOptions,
    color_characteristics: ColorCharacteristics,
}

impl<'a> QoiEncoder<'a> {
    /// The packed channel data.
    pub closed spec fn data(&self) -> Seq<u8> {
        self.pixel_data@
    }

    /// Width, height and colorspace of the image.
    pub closed spec fn options(&self) -> EncoderOptions {
        self.options
    }

    /// The color characteristics that the header will announce.
    pub closed spec fn characteristics(&self) -> ColorCharacteristics {
        self.color_characteristics
    }

    /// The number of bytes that the options ask for.
    pub open spec fn expected_len(&self) -> nat {
        self.options().width() * self.options().height() * self.options().colorspace().components()
    }

    /// The pixel data has an alpha channel.
    pub open spec fn has_alpha(&self) -> bool {
        self.options().colorspace() == ColorSpace::RGBA
    }

    /// The header will announce linear channels.
    pub open spec fn linear(&self) -> bool {
        self.characteristics() == ColorCharacteristics::Linear
    }

    /// The size that no stream for these options exceeds: every pixel as a
    /// tag byte and all its channels, the header and the end marker.
    pub open spec fn max_size_spec(&self) -> nat {
        self.options().width() * self.options().height() * (
        self.options().colorspace().components() + 1) + 14 + 8
    }

    /// Why no header can be written for this input into `capacity` bytes, if
    /// there is a reason.
    pub open spec fn header_error(&self, capacity: nat) -> Option<QoiEncodeErrors> {
        let o = self.options();
        if self.data().len() != self.expected_len() {
            Some(QoiEncodeErrors::Generic("length mismatch"))
        } else if capacity < 14 {
            Some(QoiEncodeErrors::Generic("cannot allocate header space"))
        } else if o.width() > u32::MAX {
            Some(QoiEncodeErrors::TooLargeDimensions(o.width() as usize))
        } else if o.height() > u32::MAX {
            Some(QoiEncodeErrors::TooLargeDimensions(o.height() as usize))
        } else if o.colorspace() != ColorSpace::RGB && o.colorspace() != ColorSpace::RGBA {
            Some(QoiEncodeErrors::UnsupportedColorspace(o.colorspace(), supported_colorspaces()))
        } else {
            None
        }
    }

    /// The stream for this image.
    pub open spec fn stream(&self) -> Seq<u8> {
        qoi_stream(
            self.options().width() as u32,
            self.options().height() as u32,
            self.has_alpha(),
            self.linear(),
            self.data(),
        )
    }

    /// The image as a decoder is to hand it out again.
    pub open spec fn image(&self) -> QoiImage {
        QoiImage {
            width: self.options().width() as u32,
            height: self.options().height() as u32,
            has_alpha: self.has_alpha(),
            linear: self.linear(),
            data: self.data(),
        }
    }

    /// Why encoding into `capacity` bytes fails, if it does: the input is
    /// refused, or the stream is longer than `capacity`.
    pub open spec fn encode_error(&self, capacity: nat) -> Option<QoiEncodeErrors> {
        if self.header_error(capacity) is Some {
            self.header_error(capacity)
        } else if capacity < self.stream().len() {
            Some(QoiEncodeErrors::Generic("not enough space"))
        } else {
            None
        }
    }

    /// Why encoding into a buffer of the encoder's own fails, if it does: the
    /// input is refused, or `max_size_spec` is more than the machine can
    /// address.
    pub open spec fn owned_encode_error(&self) -> Option<QoiEncodeErrors> {
        if self.header_error(22) is Some {
            self.header_error(22)
        } else if self.max_size_spec() > usize::MAX {
            Some(QoiEncodeErrors::Generic("not enough space"))
        } else {
            None
        }
    }

    /// A new encoder for the pixels in `data`, which are to hold
    /// `width * height * channels` bytes. The color characteristics are sRGB.
    pub fn new(data: &'a [u8], options: EncoderOptions) -> (e: QoiEncoder<'a>)
        ensures
            e.data() == data@,
            e.options() == options,
            e.characteristics() == ColorCharacteristics::sRGB,
    {
        QoiEncoder {
            pixel_data: data,
            options: options,
            color_characteristics: ColorCharacteristics::sRGB,
        }
    }

    /// Sets the color characteristics that the header announces.
    pub fn set_color_characteristics(&mut self, characteristics: ColorCharacteristics)
        ensures
            final(self).characteristics() == characteristics,
            final(self).data() == old(self).data(),
            final(self).options() == old(self).options(),
    {
        self.color_characteristics = characteristics;
    }

    /// The size of a buffer into which encoding cannot run out of space.
    pub fn max_size(&self) -> (n: usize)
        requires
            self.max_size_spec() <= usize::MAX,
        ensures
            n == self.max_size_spec(),
    {
        let w: usize = self.options.get_width();
        let h: usize = self.options.get_height();
        let c: usize = self.options.get_colorspace().num_components();
        if w == 0 || h == 0 {
            assert(w * h * (c + 1) == 0) by (nonlinear_arith)
                requires
                    w == 0 || h == 0,
            ;
            return QOI_HEADER_SIZE + QOI_PADDING;
        }
        assert(w * h >= 1 && w * h * (c + 1) >= c + 1 && w * h * (c + 1) >= w * h)
            by (nonlinear_arith)
            requires
                w >= 1,
                h >= 1,
                c >= 0,
        ;
        w * h * (c + 1) + QOI_HEADER_SIZE + QOI_PADDING
    }

    /// Tests the input against what the format can hold, and `capacity`
    /// against the size of the header.
    fn validate(&self, capacity: usize) -> (r: Option<QoiEncodeErrors>)
        ensures
            r == self.header_error(capacity as nat),
    {
        let w: usize = self.options.get_width();
        let h: usize = self.options.get_height();
        let colorspace: ColorSpace = self.options.get_colorspace();
        let c: usize = colorspace.num_components();
        let len: usize = self.pixel_data.len();
        let same_len: bool = match w.checked_mul(h) {
            Some(area) => match area.checked_mul(c) {
                Some(expected) => expected == len,
                None => false,
            },
            None => {
                assert(c >= 1 ==> w * h * c >= w * h) by (nonlinear_arith)
                    requires
                        w >= 0,
                        h >= 0,
                        c >= 0,
                ;
                assert(c == 0 ==> w * h * c == 0) by (nonlinear_arith);
                c == 0 && len == 0
            },
        };
        if !same_len {
            return Some(QoiEncodeErrors::Generic("length mismatch"));
        }
        if capacity < QOI_HEADER_SIZE {
            return Some(QoiEncodeErrors::Generic("cannot allocate header space"));
        }
        if (w as u64) > (u32::MAX as u64) {
            return Some(QoiEncodeErrors::TooLargeDimensions(w));
        }
        if (h as u64) > (u32::MAX as u64) {
            return Some(QoiEncodeErrors::TooLargeDimensions(h));
        }
        match colorspace {
            ColorSpace::RGB | ColorSpace::RGBA => None,
            _ => Some(QoiEncodeErrors::UnsupportedColorspace(colorspace, &SUPPORTED_COLORSPACES)),
        }
    }

    /// Writes the 14 bytes of the header, or says why it cannot.
    fn encode_headers(&self, stream: &mut ByteWriter, buf: &mut [u8]) -> (r: Result<
        (),
        QoiEncodeErrors,
    >)
        requires
            old(stream).pos() == 0,
        ensures
            final(buf)@.len() == old(buf)@.len(),
            match r {
                Err(e) => Some(e) == self.header_error(old(buf)@.len()),
                Ok(_) => {
                    &&& self.header_error(old(buf)@.len()) is None
                    &&& final(stream).pos() == 14
                    &&& final(stream).written(final(buf)@) == qoi_header(
                        self.options().width() as u32,
                        self.options().height() as u32,
                        self.has_alpha(),
                        self.linear(),
                    )
                    &&& forall|j: int| 14 <= j < old(buf)@.len() ==> final(buf)@[j] == old(buf)@[j]
                },
            },
    {
        match self.validate(buf.len()) {
            Some(e) => {
                return Err(e);
            },
            None => {},
        }
        let w: usize = self.options.get_width();
        let h: usize = self.options.get_height();
        let channel: u8 = match self.options.get_colorspace() {
            ColorSpace::RGBA => 4,
            _ => 3,
        };
        let xtic: u8 = match self.color_characteristics {
            ColorCharacteristics::Linear => 1,
            _ => 0,
        };
        assert(stream.written(buf@) =~= Seq::<u8>::empty());
        stream.write_u32_be(buf, QOI_MAGIC);
        stream.write_u32_be(buf, w as u32);
        stream.write_u32_be(buf, h as u32);
        stream.write_u8(buf, channel);
        stream.write_u8(buf, xtic);
        assert(stream.written(buf@) =~= qoi_header(
            self.options().width() as u32,
            self.options().height() as u32,
            self.has_alpha(),
            self.linear(),
        ));
        Ok(())
    }

    /// Encodes into `buf` and returns the number of bytes of the stream. Fails
    /// if the input is refused or `buf` is shorter than the stream; what `buf`
    /// holds after a failure is not defined.
    pub fn encode_into(&mut self, buf: &mut [u8]) -> (r: Result<usize, QoiEncodeErrors>)
        ensures
            *final(self) == *old(self),
            final(buf)@.len() == old(buf)@.len(),
            old(self).header_error(old(buf)@.len()) is None && old(buf)@.len() >= old(
                self,
            ).max_size_spec() ==> r is Ok,
            match r {
                Err(e) => Some(e) == old(self).encode_error(old(buf)@.len()),
                Ok(n) => {
                    &&& old(self).encode_error(old(buf)@.len()) is None
                    &&& n == old(self).stream().len()
                    &&& n <= old(self).max_size_spec()
                    &&& final(buf)@.subrange(0, n as int) == old(self).stream()
                    &&& qoi_decode(final(buf)@.subrange(0, n as int)) == Some(old(self).image())
                    &&& forall|j: int| n <= j < old(buf)@.len() ==> final(buf)@[j] == old(buf)@[j]
                },
            },
    {
        let mut stream = ByteWriter::new();
        match self.encode_headers(&mut stream, buf) {
            Err(e) => {
                return Err(e);
            },
            Ok(_) => {},
        }
        let has_alpha: bool = match self.options.get_colorspace() {
            ColorSpace::RGBA => true,
            _ => false,
        };
        let data: &[u8] = self.pixel_data;
        let count: usize = if has_alpha {
            data.len() / 4
        } else {
            data.len() / 3
        };
        let ghost pixels = pixels_of(data@, has_alpha);
        let ghost header = qoi_header(
            self.options().width() as u32,
            self.options().height() as u32,
            self.has_alpha(),
            self.linear(),
        );
        let ghost start = initial_state();
        let ghost area: nat = self.options().width() * self.options().height();
        proof {
            assert(self.has_alpha() == has_alpha);
            assert(has_alpha ==> data@.len() == area * 4);
            assert(!has_alpha ==> data@.len() == area * 3);
            assert(pixels.len() == area);
            assert(self.stream() == header + qoi_body(pixels) + qoi_trailer());
            lemma_stream_bound(
                self.options().width() as u32,
                self.options().height() as u32,
                has_alpha,
                self.linear(),
                data@,
            );
            assert(channel_count(has_alpha) == if has_alpha {
                4int
            } else {
                3int
            });
            assert(has_alpha ==> self.options().colorspace().components() == 4);
            assert(!has_alpha ==> self.options().colorspace().components() == 3);
            assert(has_alpha ==> self.max_size_spec() == area * 5 + 22);
            assert(!has_alpha ==> self.max_size_spec() == area * 4 + 22);
            assert(self.stream().len() <= self.max_size_spec());
            assert(pixels.take(0) =~= Seq::<Pixel>::empty());
            assert(qoi_decode(self.stream()) == Some(self.image())) by {
                lemma_round_trip(
                    self.options().width() as u32,
                    self.options().height() as u32,
                    has_alpha,
                    self.linear(),
                    data@,
                );
            }
        }
        let mut index: [Pixel; 64] = [Pixel { r: 0, g: 0, b: 0, a: 0 };64];
        let mut px_prev: Pixel = Pixel { r: 0, g: 0, b: 0, a: 255 };
        let mut run: u8 = 0;
        let mut i: usize = 0;
        assert(index@ =~= start.index);
        while i < count
            invariant
                i <= count,
                count == pixels.len(),
                pixels == pixels_of(data@, has_alpha),
                has_alpha ==> data@.len() == 4 * count,
                !has_alpha ==> data@.len() == 3 * count,
                start == initial_state(),
                buf@.len() == old(buf)@.len(),
                stream.pos() == 14 + bytes_after(start, pixels.take(i as int)).len(),
                stream.pos() <= buf@.len(),
                stream.written(buf@) == header + bytes_after(start, pixels.take(i as int)),
                forall|j: int| stream.pos() <= j < buf@.len() ==> buf@[j] == old(buf)@[j],
                px_prev == state_after(start, pixels.take(i as int)).prev,
                index@ == state_after(start, pixels.take(i as int)).index,
                run == state_after(start, pixels.take(i as int)).run,
                run < 62,
                index@.len() == 64,
                self.stream() == header + qoi_body(pixels) + qoi_trailer(),
                self.stream().len() <= self.max_size_spec(),
                qoi_decode(self.stream()) == Some(self.image()),
                header.len() == 14,
                qoi_trailer().len() == 8,
                self.header_error(old(buf)@.len()) is None,
            decreases count - i,
        {
            proof {
                lemma_take_step(start, pixels, i as int);
                lemma_prefix_len(start, pixels, i as int);
                lemma_prefix_len(start, pixels, i + 1);
            }
            let px: Pixel = read_pixel(data, has_alpha, i);
            // Five bytes for the longest chunk, and one for a run that it may end.
            let need: usize = if run > 0 {
                6
            } else {
                5
            };
            if !stream.has(buf, need) {
                return Err(QoiEncodeErrors::Generic("not enough space"));
            }
            let ghost before = stream.written(buf@);
            let ghost s = state_after(start, pixels.take(i as int));
            proof {
                lemma_chunk_lengths(s, px);
            }
            encode_pixel(&mut stream, buf, &mut index, px_prev, &mut run, px);
            px_prev = px;
            i = i + 1;
            proof {
                assert(header + bytes_after(start, pixels.take(i as int)) =~= before + step_bytes(
                    s,
                    px,
                ));
            }
        }
        let ghost so_far = stream.written(buf@);
        proof {
            assert(pixels.take(i as int) =~= pixels);
        }
        let tail: usize = if run > 0 {
            QOI_PADDING + 1
        } else {
            QOI_PADDING
        };
        if !stream.has(buf, tail) {
            return Err(QoiEncodeErrors::Generic("not enough space"));
        }
        if run > 0 {
            stream.write_u8(buf, QOI_OP_RUN | (run - 1));
        }
        stream.write_u64_be(buf, 1);
        let len: usize = stream.position();
        proof {
            assert(stream.written(buf@) =~= so_far + flush_run(run as nat) + qoi_trailer());
            assert(self.stream() =~= so_far + flush_run(run as nat) + qoi_trailer());
        }
        Ok(len)
    }

    /// Encodes into a buffer of `max_size` bytes and returns the stream.
    pub fn encode(&mut self) -> (r: Result<Vec<u8>, QoiEncodeErrors>)
        ensures
            *final(self) == *old(self),
            match r {
                Err(e) => Some(e) == old(self).owned_encode_error(),
                Ok(v) => {
                    &&& old(self).owned_encode_error() is None
                    &&& v@ == old(self).stream()
                    &&& v@.len() <= old(self).max_size_spec()
                    &&& qoi_decode(v@) == Some(old(self).image())
                },
            },
    {
        match self.validate(QOI_HEADER_SIZE + QOI_PADDING) {
            Some(e) => {
                return Err(e);
            },
            None => {},
        }
        let has_alpha: bool = match self.options.get_colorspace() {
            ColorSpace::RGBA => true,
            _ => false,
        };
        let len: usize = self.pixel_data.len();
        let area: usize = if has_alpha {
            len / 4
        } else {
            len / 3
        };
        let per_pixel: usize = if has_alpha {
            5
        } else {
            4
        };
        proof {
            let wh: nat = self.options().width() * self.options().height();
            assert(has_alpha ==> len == wh * 4);
            assert(!has_alpha ==> len == wh * 3);
            assert(area == wh);
            assert(self.max_size_spec() == wh * per_pixel + 22);
            assert(channel_count(has_alpha) + 1 == per_pixel);
            assert(pixels_of(self.data(), has_alpha).len() == wh);
            assert(area * per_pixel == wh * per_pixel);
        }
        let size: usize = match area.checked_mul(per_pixel) {
            Some(body) => match body.checked_add(QOI_HEADER_SIZE + QOI_PADDING) {
                Some(size) => size,
                None => {
                    return Err(QoiEncodeErrors::Generic("not enough space"));
                },
            },
            None => {
                return Err(QoiEncodeErrors::Generic("not enough space"));
            },
        };
        let mut encoded_data: Vec<u8> = vec![0u8; size];
        proof {
            lemma_stream_bound(
                self.options().width() as u32,
                self.options().height() as u32,
                has_alpha,
                self.linear(),
                self.data(),
            );
        }
        let res = self.encode_into(encoded_data.as_mut_slice());
        match res {
            Ok(n) => {
                encoded_data.truncate(n);
                Ok(encoded_data)
            },
            Err(e) => Err(e),
        }
    }
}

} // verus!
